//! The index of segments by path: one entry per path, kept in key order so
//! that it serves both lookups and ordered listings.

use vstd::prelude::*;
use crate::keys::{
    chars_of, in_list_range, range_end_char, key_less, key_lt, lemma_key_lt_irreflexive,
    lemma_key_lt_total, lemma_key_lt_transitive, lemma_list_range_has_prefix,
};

verus! {

struct Entry<S> {
    path: String,
    key: Vec<char>,
    segment: S,
}

/// The segments of the service, each under its path. `S` is whatever
/// handle the caller keeps a segment behind.
pub struct AppState<S> {
    entries: Vec<Entry<S>>,
}

/// The elements of `s` from `offset` on, at most `limit` of them.
pub open spec fn page<T>(s: Seq<T>, offset: int, limit: int) -> Seq<T> {
    let start = if offset < s.len() { offset } else { s.len() as int };
    let end = if start + limit < s.len() { start + limit } else { s.len() as int };
    s.subrange(start, end)
}

/// The predicate of a listing for `from`: the key lies in its range.
pub open spec fn list_pred(from: Seq<char>) -> spec_fn(Seq<char>) -> bool {
    |k: Seq<char>| in_list_range(from, k)
}

/// What a listing for `from` gives of `paths` (in that order): the paths in
/// its range, from the `offset`-th on, at most `limit` of them.
pub open spec fn listed(paths: Seq<Seq<char>>, from: Seq<char>, offset: int, limit: int) -> Seq<Seq<char>> {
    page(paths.filter(list_pred(from)), offset, limit)
}

/// The characters of each string.
pub open spec fn string_views(v: Seq<String>) -> Seq<Seq<char>> {
    v.map_values(|s: String| s@)
}

/// Filtering keeps nothing of a sequence none of whose elements qualify.
proof fn lemma_filter_none<T>(s: Seq<T>, pred: spec_fn(T) -> bool)
    requires
        forall|j: int| 0 <= j < s.len() ==> !pred(#[trigger] s[j]),
    ensures
        s.filter(pred) == Seq::<T>::empty(),
    decreases s.len(),
{
    reveal(Seq::filter);
    if s.len() > 0 {
        lemma_filter_none(s.drop_last(), pred);
    }
}

/// Filtering keeps all of a sequence whose elements all qualify.
proof fn lemma_filter_all<T>(s: Seq<T>, pred: spec_fn(T) -> bool)
    requires
        forall|j: int| 0 <= j < s.len() ==> pred(#[trigger] s[j]),
    ensures
        s.filter(pred) == s,
    decreases s.len(),
{
    reveal(Seq::filter);
    if s.len() > 0 {
        lemma_filter_all(s.drop_last(), pred);
        assert(s.drop_last().push(s.last()) =~= s);
    }
}

/// A page that is full before `b` is not changed by appending `b`.
proof fn lemma_page_full<T>(a: Seq<T>, b: Seq<T>, offset: int, limit: int)
    requires
        0 <= offset,
        0 <= limit,
        page(a, offset, limit).len() >= limit,
    ensures
        page(a + b, offset, limit) == page(a, offset, limit),
{
    assert(page(a + b, offset, limit) =~= page(a, offset, limit));
}

/// How a page grows as its sequence does.
proof fn lemma_page_push<T>(a: Seq<T>, x: T, offset: int, limit: int)
    requires
        0 <= offset,
        0 <= limit,
        page(a, offset, limit).len() < limit,
    ensures
        a.len() < offset ==> page(a.push(x), offset, limit) == page(a, offset, limit),
        a.len() >= offset ==> page(a.push(x), offset, limit) == page(a, offset, limit).push(x),
{
    if a.len() < offset {
        assert(page(a.push(x), offset, limit) =~= page(a, offset, limit));
    } else {
        assert(page(a.push(x), offset, limit) =~= page(a, offset, limit).push(x));
    }
}

/// In a sorted sequence, the keys that a listing selects form a block: from
/// the first key not before `from`, up to the first key after `from + "~"`.
proof fn lemma_listing_is_block(paths: Seq<Seq<char>>, from: Seq<char>, lo: int, i: int)
    requires
        strictly_sorted(paths),
        0 <= lo <= i <= paths.len(),
        forall|j: int| 0 <= j < lo ==> key_lt(#[trigger] paths[j], from),
        forall|j: int| lo <= j < i ==> list_pred(from)(#[trigger] paths[j]),
    ensures
        paths.filter(list_pred(from)) == paths.subrange(lo, i) + paths.skip(i).filter(list_pred(from)),
        (i == paths.len() || key_lt(from.push(range_end_char()), paths[i])) ==> paths.filter(list_pred(from))
            == paths.subrange(lo, i),
{
    let pred = list_pred(from);
    let upper = from.push(range_end_char());
    let pre = paths.take(lo);
    let mid = paths.subrange(lo, i);
    let rest = paths.skip(i);
    assert forall|j: int| 0 <= j < pre.len() implies !pred(#[trigger] pre[j]) by {
        lemma_key_lt_total(from, paths[j]);
        lemma_key_lt_irreflexive(from);
    }
    lemma_filter_none(pre, pred);
    assert forall|j: int| 0 <= j < mid.len() implies pred(#[trigger] mid[j]) by {
        assert(mid[j] == paths[lo + j]);
    }
    lemma_filter_all(mid, pred);
    assert(paths =~= pre + mid + rest);
    Seq::filter_distributes_over_add(pre, mid, pred);
    Seq::filter_distributes_over_add(pre + mid, rest, pred);
    assert(pre.filter(pred) + mid.filter(pred) =~= mid);
    if i == paths.len() || key_lt(upper, paths[i]) {
        assert forall|j: int| 0 <= j < rest.len() implies !pred(#[trigger] rest[j]) by {
            let k = rest[j];
            assert(k == paths[i + j]);
            if j > 0 {
                lemma_key_lt_transitive(upper, paths[i], k);
            }
            lemma_key_lt_total(upper, k);
            lemma_key_lt_irreflexive(k);
        }
        lemma_filter_none(rest, pred);
        assert(mid + rest.filter(pred) =~= mid);
    }
}

/// Filtering a strictly sorted sequence keeps it strictly sorted, and keeps
/// only its own elements.
proof fn lemma_filter_sorted(s: Seq<Seq<char>>, pred: spec_fn(Seq<char>) -> bool)
    requires
        strictly_sorted(s),
    ensures
        strictly_sorted(s.filter(pred)),
        forall|i: int| 0 <= i < s.filter(pred).len() ==> s.contains(#[trigger] s.filter(pred)[i]),
    decreases s.len(),
{
    reveal(Seq::filter);
    if s.len() > 0 {
        let dl = s.drop_last();
        lemma_filter_sorted(dl, pred);
        let f = dl.filter(pred);
        assert forall|i: int| 0 <= i < f.len() implies s.contains(#[trigger] f[i]) by {
            let j = choose|j: int| 0 <= j < dl.len() && dl[j] == f[i];
            assert(s[j] == f[i]);
        }
        if pred(s.last()) {
            let g = f.push(s.last());
            assert forall|i: int, j: int| 0 <= i < j < g.len() implies
                key_lt(#[trigger] g[i], #[trigger] g[j]) by {
                if j == g.len() - 1 {
                    let k = choose|k: int| 0 <= k < dl.len() && dl[k] == f[i];
                    assert(key_lt(s[k], s[s.len() - 1]));
                } else {
                    assert(key_lt(f[i], f[j]));
                }
            }
            assert forall|i: int| 0 <= i < g.len() implies s.contains(#[trigger] g[i]) by {
                if i == g.len() - 1 {
                    assert(s[s.len() - 1] == g[i]);
                } else {
                    assert(g[i] == f[i]);
                }
            }
        }
    }
}

/// Each key of `keys` comes strictly before the ones after it.
pub open spec fn strictly_sorted(keys: Seq<Seq<char>>) -> bool {
    forall|i: int, j: int| 0 <= i < j < keys.len() ==> key_lt(#[trigger] keys[i], #[trigger] keys[j])
}

impl<S> View for AppState<S> {
    type V = Map<Seq<char>, S>;

    /// The index as a map from path to segment.
    closed spec fn view(&self) -> Map<Seq<char>, S> {
        Map::new(
            |k: Seq<char>| self.paths().contains(k),
            |k: Seq<char>| self.entries@[self.index_of(k)].segment,
        )
    }
}

impl<S> Default for AppState<S> {
    /// An empty index.
    fn default() -> (r: AppState<S>)
        ensures
            r.wf(),
            r@ == Map::<Seq<char>, S>::empty(),
            r.paths().len() == 0,
    {
        AppState::new()
    }
}

impl<S> AppState<S> {
    /// The paths of the index, in key order.
    pub closed spec fn paths(&self) -> Seq<Seq<char>> {
        Seq::new(self.entries@.len(), |i: int| self.entries@[i].path@)
    }

    closed spec fn index_of(&self, k: Seq<char>) -> int {
        choose|i: int| 0 <= i < self.entries@.len() && self.entries@[i].path@ == k
    }


    /// Each entry's key is its path, and the paths are in strict key order.
    pub closed spec fn wf(&self) -> bool {
        &&& forall|i: int| 0 <= i < self.entries@.len()
            ==> (#[trigger] self.entries@[i]).key@ == self.entries@[i].path@
        &&& strictly_sorted(self.paths())
    }

    /// The paths in key order are exactly the paths under which a segment
    /// is stored, each once.
    pub proof fn lemma_paths_match_segments(&self)
        requires
            self.wf(),
        ensures
            strictly_sorted(self.paths()),
            self.paths().no_duplicates(),
            self.paths().to_set() == self@.dom(),
    {
        assert forall|i: int, j: int| 0 <= i < j < self.paths().len() implies
            self.paths()[i] != self.paths()[j] by {
            lemma_key_lt_irreflexive(self.paths()[i]);
        }
        assert(self.paths().to_set() =~= self@.dom());
    }

    proof fn lemma_index_of(&self, i: int)
        requires
            strictly_sorted(self.paths()),
            0 <= i < self.entries@.len(),
        ensures
            self.index_of(self.entries@[i].path@) == i,
            self@.contains_key(self.entries@[i].path@),
            self@[self.entries@[i].path@] == self.entries@[i].segment,
    {
        let k = self.entries@[i].path@;
        assert(self.paths()[i] == k);
        let j = self.index_of(k);
        if j != i {
            if j < i {
                lemma_key_lt_irreflexive(k);
                assert(key_lt(self.paths()[j], self.paths()[i]));
            } else {
                lemma_key_lt_irreflexive(k);
                assert(key_lt(self.paths()[i], self.paths()[j]));
            }
        }
    }
}

impl<S> AppState<S> {
    /// An empty index.
    pub fn new() -> (r: AppState<S>)
        ensures
            r.wf(),
            r@ == Map::<Seq<char>, S>::empty(),
            r.paths().len() == 0,
    {
        let r = AppState { entries: Vec::new() };
        assert(r@ =~= Map::<Seq<char>, S>::empty());
        r
    }

    /// The number of segments in the index.
    pub fn len(&self) -> (n: usize)
        requires
            self.wf(),
        ensures
            n == self@.len(),
            n == self.paths().len(),
    {
        proof {
            self.lemma_paths_match_segments();
            self.paths().unique_seq_to_set();
        }
        self.entries.len()
    }

    /// The position of `key` in key order: every path before it comes
    /// before `key`, none from it on does, and whether the path there is
    /// `key`.
    fn find(&self, key: &Vec<char>) -> (r: (usize, bool))
        requires
            self.wf(),
        ensures
            r.0 <= self.paths().len(),
            forall|i: int| 0 <= i < r.0 ==> key_lt(#[trigger] self.paths()[i], key@),
            forall|i: int| r.0 <= i < self.paths().len() ==> !key_lt(#[trigger] self.paths()[i], key@),
            r.1 == (r.0 < self.paths().len() && self.paths()[r.0 as int] == key@),
            r.1 == self@.contains_key(key@),
            !r.1 ==> forall|i: int| r.0 <= i < self.paths().len() ==> key_lt(key@, #[trigger] self.paths()[i]),
    {
        let n = self.entries.len();
        let mut lo: usize = 0;
        let mut hi: usize = n;
        while lo < hi
            invariant
                self.wf(),
                n == self.paths().len(),
                lo <= hi <= n,
                forall|i: int| 0 <= i < lo ==> key_lt(#[trigger] self.paths()[i], key@),
                forall|i: int| hi <= i < n ==> !key_lt(#[trigger] self.paths()[i], key@),
            decreases hi - lo,
        {
            let mid = lo + (hi - lo) / 2;
            assert(self.entries@[mid as int].key@ == self.paths()[mid as int]);
            if key_less(&self.entries[mid].key, key) {
                assert forall|i: int| 0 <= i < mid + 1 implies key_lt(#[trigger] self.paths()[i], key@) by {
                    if i < mid {
                        lemma_key_lt_transitive(self.paths()[i], self.paths()[mid as int], key@);
                    }
                }
                lo = mid + 1;
            } else {
                assert forall|i: int| mid <= i < n implies !key_lt(#[trigger] self.paths()[i], key@) by {
                    if i > mid && key_lt(self.paths()[i], key@) {
                        lemma_key_lt_transitive(self.paths()[mid as int], self.paths()[i], key@);
                    }
                }
                hi = mid;
            }
        }
        let found = if lo < n {
            assert(self.entries@[lo as int].key@ == self.paths()[lo as int]);
            let after = key_less(key, &self.entries[lo].key);
            proof {
                lemma_key_lt_total(key@, self.paths()[lo as int]);
            }
            !after
        } else {
            false
        };
        proof {
            if found {
                self.lemma_index_of(lo as int);
            } else {
                assert forall|i: int| lo <= i < n implies key_lt(key@, #[trigger] self.paths()[i]) by {
                    lemma_key_lt_total(key@, self.paths()[lo as int]);
                    if i > lo {
                        lemma_key_lt_transitive(key@, self.paths()[lo as int], self.paths()[i]);
                    }
                }
                if self@.contains_key(key@) {
                    let j = choose|j: int| 0 <= j < n && self.paths()[j] == key@;
                    lemma_key_lt_irreflexive(key@);
                    assert(key_lt(self.paths()[j], key@) || key_lt(key@, self.paths()[j]));
                }
            }
        }
        (lo, found)
    }

    /// The segment stored under `path`, if there is one.
    pub fn get(&self, path: &str) -> (r: Option<&S>)
        requires
            self.wf(),
        ensures
            match r {
                Some(s) => self@.contains_key(path@) && *s == self@[path@],
                None => !self@.contains_key(path@),
            },
    {
        let key = chars_of(path);
        let (p, found) = self.find(&key);
        if found {
            proof {
                self.lemma_index_of(p as int);
            }
            Some(&self.entries[p].segment)
        } else {
            None
        }
    }

    /// Whether a segment is stored under `path`.
    pub fn contains_key(&self, path: &str) -> (b: bool)
        requires
            self.wf(),
        ensures
            b == self@.contains_key(path@),
    {
        let key = chars_of(path);
        let (_, found) = self.find(&key);
        found
    }

    /// Stores `segment` under `path`, in place of any segment stored there
    /// before.
    pub fn insert(&mut self, path: String, segment: S)
        requires
            old(self).wf(),
        ensures
            final(self).wf(),
            final(self)@ == old(self)@.insert(path@, segment),
    {
        let ghost pre = *self;
        let key = chars_of(path.as_str());
        let (p, found) = self.find(&key);
        let ghost k = key@;
        let ghost n = pre.paths().len();
        if found {
            let _replaced = self.entries.remove(p);
        }
        self.entries.insert(p, Entry { path, key, segment });
        proof {
            if found {
                assert(self.paths() =~= pre.paths().update(p as int, k));
            } else {
                assert(self.paths() =~= pre.paths().insert(p as int, k));
            }
            assert forall|i: int| 0 <= i < self.entries@.len() implies
                (#[trigger] self.entries@[i]).key@ == self.entries@[i].path@ by {
                if i != p {
                    if found || i < p {
                        assert(self.entries@[i] == pre.entries@[i]);
                    } else {
                        assert(self.entries@[i] == pre.entries@[i - 1]);
                    }
                }
            }
            assert forall|i: int, j: int| 0 <= i < j < self.paths().len() implies
                key_lt(#[trigger] self.paths()[i], #[trigger] self.paths()[j]) by {
                let a = self.paths()[i];
                let b = self.paths()[j];
                if found {
                    if i == p {
                        lemma_key_lt_total(k, pre.paths()[j]);
                        lemma_key_lt_irreflexive(k);
                        assert(key_lt(pre.paths()[p as int], pre.paths()[j]));
                    } else if j == p {
                        assert(key_lt(pre.paths()[i], pre.paths()[p as int]));
                    } else {
                        assert(key_lt(pre.paths()[i], pre.paths()[j]));
                    }
                } else {
                    if i == p {
                        assert(b == pre.paths()[j - 1]);
                    } else if j == p {
                        assert(a == pre.paths()[i]);
                    } else if j < p {
                        assert(key_lt(pre.paths()[i], pre.paths()[j]));
                    } else if i < p {
                        assert(a == pre.paths()[i]);
                        assert(b == pre.paths()[j - 1]);
                        lemma_key_lt_transitive(a, k, b);
                    } else {
                        assert(key_lt(pre.paths()[i - 1], pre.paths()[j - 1]));
                    }
                }
            }
            let goal = pre@.insert(k, segment);
            assert forall|x: Seq<char>| #[trigger] self@.contains_key(x) <==> goal.contains_key(x) by {
                if self@.contains_key(x) {
                    let j = choose|j: int| 0 <= j < self.paths().len() && self.paths()[j] == x;
                    if x != k {
                        if found || j < p {
                            assert(pre.paths()[j] == x);
                        } else {
                            assert(pre.paths()[j - 1] == x);
                        }
                    }
                }
                if goal.contains_key(x) {
                    if x == k {
                        assert(self.paths()[p as int] == x);
                    } else {
                        let j = choose|j: int| 0 <= j < n && pre.paths()[j] == x;
                        if found || j < p {
                            assert(self.paths()[j] == x);
                        } else {
                            assert(self.paths()[j + 1] == x);
                        }
                    }
                }
            }
            assert forall|x: Seq<char>| self@.contains_key(x) implies #[trigger] self@[x] == goal[x] by {
                if x == k {
                    self.lemma_index_of(p as int);
                } else {
                    let j = choose|j: int| 0 <= j < n && pre.paths()[j] == x;
                    pre.lemma_index_of(j);
                    if found || j < p {
                        self.lemma_index_of(j);
                    } else {
                        self.lemma_index_of(j + 1);
                    }
                }
            }
            assert(self@ =~= goal);
        }
    }

    /// Takes the segment stored under `path` out of the index, if there is
    /// one.
    pub fn remove(&mut self, path: &str) -> (r: Option<S>)
        requires
            old(self).wf(),
        ensures
            final(self).wf(),
            final(self)@ == old(self)@.remove(path@),
            match r {
                Some(s) => old(self)@.contains_key(path@) && s == old(self)@[path@],
                None => !old(self)@.contains_key(path@),
            },
    {
        let ghost pre = *self;
        let key = chars_of(path);
        let (p, found) = self.find(&key);
        let ghost k = key@;
        let ghost n = pre.paths().len();
        if !found {
            assert(self@ =~= pre@.remove(k));
            return None;
        }
        let e = self.entries.remove(p);
        proof {
            pre.lemma_index_of(p as int);
            assert(self.paths() =~= pre.paths().remove(p as int));
            assert forall|i: int| 0 <= i < self.entries@.len() implies
                (#[trigger] self.entries@[i]).key@ == self.entries@[i].path@ by {
                if i < p {
                    assert(self.entries@[i] == pre.entries@[i]);
                } else {
                    assert(self.entries@[i] == pre.entries@[i + 1]);
                }
            }
            assert forall|i: int, j: int| 0 <= i < j < self.paths().len() implies
                key_lt(#[trigger] self.paths()[i], #[trigger] self.paths()[j]) by {
                if j < p {
                    assert(key_lt(pre.paths()[i], pre.paths()[j]));
                } else if i < p {
                    assert(key_lt(pre.paths()[i], pre.paths()[j + 1]));
                } else {
                    assert(key_lt(pre.paths()[i + 1], pre.paths()[j + 1]));
                }
            }
            let goal = pre@.remove(k);
            assert forall|x: Seq<char>| #[trigger] self@.contains_key(x) <==> goal.contains_key(x) by {
                if self@.contains_key(x) {
                    let j = choose|j: int| 0 <= j < self.paths().len() && self.paths()[j] == x;
                    if j < p {
                        assert(pre.paths()[j] == x);
                        lemma_key_lt_irreflexive(x);
                        assert(key_lt(pre.paths()[j], pre.paths()[p as int]));
                    } else {
                        assert(pre.paths()[j + 1] == x);
                        lemma_key_lt_irreflexive(x);
                        assert(key_lt(pre.paths()[p as int], pre.paths()[j + 1]));
                    }
                }
                if goal.contains_key(x) {
                    let j = choose|j: int| 0 <= j < n && pre.paths()[j] == x;
                    if j < p {
                        assert(self.paths()[j] == x);
                    } else {
                        assert(j != p);
                        assert(self.paths()[j - 1] == x);
                    }
                }
            }
            assert forall|x: Seq<char>| self@.contains_key(x) implies #[trigger] self@[x] == goal[x] by {
                let j = choose|j: int| 0 <= j < n && pre.paths()[j] == x;
                pre.lemma_index_of(j);
                if j < p {
                    self.lemma_index_of(j);
                } else {
                    self.lemma_index_of(j - 1);
                }
            }
            assert(self@ =~= goal);
        }
        Some(e.segment)
    }

    /// The paths that a listing for `from` selects, in key order, from the
    /// `offset`-th on, at most `limit` of them.
    pub fn list(&self, from: &str, offset: usize, limit: usize) -> (r: Vec<String>)
        requires
            self.wf(),
        ensures
            string_views(r@) == listed(self.paths(), from@, offset as int, limit as int),
    {
        let key = chars_of(from);
        let mut upper = chars_of(from);
        upper.push('~');
        let ghost pred = list_pred(from@);
        let ghost paths = self.paths();
        let n = self.entries.len();
        let (lo, _) = self.find(&key);
        let mut out: Vec<String> = Vec::new();
        let mut i = lo;
        let mut past_range = false;
        while i < n && out.len() < limit
            invariant_except_break
                !past_range,
            invariant
                self.wf(),
                paths == self.paths(),
                pred == list_pred(from@),
                key@ == from@,
                upper@ == from@.push(range_end_char()),
                n == paths.len(),
                lo <= i <= n,
                forall|j: int| 0 <= j < lo ==> key_lt(#[trigger] paths[j], key@),
                forall|j: int| lo <= j < n ==> !key_lt(#[trigger] paths[j], key@),
                forall|j: int| lo <= j < i ==> pred(#[trigger] paths[j]),
                string_views(out@) == page(paths.subrange(lo as int, i as int), offset as int, limit as int),
            ensures
                lo <= i <= n,
                forall|j: int| lo <= j < i ==> pred(#[trigger] paths[j]),
                string_views(out@) == page(paths.subrange(lo as int, i as int), offset as int, limit as int),
                past_range ==> i < n && key_lt(upper@, paths[i as int]),
                !past_range ==> i == n || out.len() >= limit,
            decreases n - i,
        {
            assert(self.entries@[i as int].key@ == paths[i as int]);
            if key_less(&upper, &self.entries[i].key) {
                past_range = true;
                break;
            }
            proof {
                lemma_key_lt_total(key@, paths[i as int]);
                lemma_key_lt_total(upper@, paths[i as int]);
                assert(pred(paths[i as int]));
                lemma_page_push(paths.subrange(lo as int, i as int), paths[i as int], offset as int, limit as int);
                assert(paths.subrange(lo as int, i as int).push(paths[i as int]) =~= paths.subrange(lo as int, i + 1));
            }
            if i - lo >= offset {
                let ghost before = out@;
                let p = self.entries[i].path.clone();
                out.push(p);
                assert(string_views(out@) =~= string_views(before).push(paths[i as int]));
            }
            i = i + 1;
        }
        proof {
            lemma_listing_is_block(paths, from@, lo as int, i as int);
            if !past_range && i < n {
                lemma_page_full(
                    paths.subrange(lo as int, i as int),
                    paths.skip(i as int).filter(pred),
                    offset as int,
                    limit as int,
                );
            }
        }
        out
    }

    /// A listing gives stored paths only, each once and in key order, each
    /// starting with the path it was asked for, and never more than `limit`
    /// of them: exactly `limit` or all of those past `offset`, whichever is
    /// fewer.
    pub proof fn lemma_listing(&self, from: Seq<char>, offset: int, limit: int)
        requires
            self.wf(),
            0 <= offset,
            0 <= limit,
        ensures
            strictly_sorted(listed(self.paths(), from, offset, limit)),
            forall|i: int| 0 <= i < listed(self.paths(), from, offset, limit).len() ==> {
                let k = #[trigger] listed(self.paths(), from, offset, limit)[i];
                &&& self@.contains_key(k)
                &&& from.len() <= k.len()
                &&& k.subrange(0, from.len() as int) == from
            },
            listed(self.paths(), from, offset, limit).len() == (if self.paths().filter(list_pred(from)).len() <= offset {
                0
            } else if self.paths().filter(list_pred(from)).len() - offset < limit {
                self.paths().filter(list_pred(from)).len() - offset
            } else {
                limit
            }),
    {
        let pred = list_pred(from);
        let f = self.paths().filter(pred);
        let l = listed(self.paths(), from, offset, limit);
        lemma_filter_sorted(self.paths(), pred);
        let start = if offset < f.len() { offset } else { f.len() as int };
        assert forall|i: int, j: int| 0 <= i < j < l.len() implies key_lt(#[trigger] l[i], #[trigger] l[j]) by {
            assert(l[i] == f[start + i]);
            assert(l[j] == f[start + j]);
        }
        assert forall|i: int| 0 <= i < l.len() implies {
            let k = #[trigger] l[i];
            &&& self@.contains_key(k)
            &&& from.len() <= k.len()
            &&& k.subrange(0, from.len() as int) == from
        } by {
            assert(l[i] == f[start + i]);
            self.paths().lemma_filter_pred(pred, start + i);
            assert(self.paths().contains(f[start + i]));
            lemma_list_range_has_prefix(from, l[i]);
        }
    }
}

} // verus!
