//! Searching downloaded sitemaps for page locations that contain a substring.
use vstd::prelude::*;

use crate::sitemap::{strings_view, SitemapKind, SitemapKindView};
use crate::text::chars_of;

verus! {

broadcast use vstd::string::group_string_axioms;

/// Whether `pattern` occurs in `s` at index `at`.
pub open spec fn occurs_at(s: Seq<char>, pattern: Seq<char>, at: int) -> bool {
    0 <= at && at + pattern.len() <= s.len() && s.subrange(at, at + pattern.len()) == pattern
}

/// Whether `pattern` occurs anywhere in `s` (the empty pattern always does).
pub open spec fn contains_text(s: Seq<char>, pattern: Seq<char>) -> bool {
    exists|at: int| occurs_at(s, pattern, at)
}

/// The locations of `locs` that contain `pattern`, in order.
pub open spec fn matching(locs: Seq<Seq<char>>, pattern: Seq<char>) -> Seq<Seq<char>>
    decreases locs.len(),
{
    if locs.len() == 0 {
        Seq::empty()
    } else {
        let rest = matching(locs.drop_last(), pattern);
        if contains_text(locs.last(), pattern) {
            rest.push(locs.last())
        } else {
            rest
        }
    }
}

/// The matches are exactly the locations that contain the pattern, each as
/// often as it occurs among them, and in the order met.
pub proof fn lemma_matching_exact(locs: Seq<Seq<char>>, pattern: Seq<char>)
    ensures
        forall|x: Seq<char>| matching(locs, pattern).contains(x) <==> locs.contains(x) && contains_text(x, pattern),
        matching(locs, pattern).len() <= locs.len(),
        forall|x: Seq<char>| #[trigger] matching(locs, pattern).to_multiset().count(x)
            == if contains_text(x, pattern) { locs.to_multiset().count(x) } else { 0 },
    decreases locs.len(),
{
    broadcast use vstd::seq_lib::group_to_multiset_ensures;
    if locs.len() == 0 {
        assert(matching(locs, pattern) =~= Seq::<Seq<char>>::empty());
        assert(locs.to_multiset().len() == 0);
        assert(matching(locs, pattern).to_multiset().len() == 0);
        assert forall|x: Seq<char>| #[trigger] matching(locs, pattern).to_multiset().count(x)
            == if contains_text(x, pattern) { locs.to_multiset().count(x) } else { 0 } by {
            assert(!locs.contains(x));
            assert(!matching(locs, pattern).contains(x));
        }
    } else {
        let init = locs.drop_last();
        let l = locs.last();
        let m = matching(init, pattern);
        lemma_matching_exact(init, pattern);
        assert(locs =~= init.push(l));
        assert(locs.to_multiset() =~= init.to_multiset().insert(l));
        if contains_text(l, pattern) {
            assert(m.push(l).to_multiset() =~= m.to_multiset().insert(l));
        }
        assert forall|x: Seq<char>| matching(locs, pattern).contains(x) <==> locs.contains(x) && contains_text(x, pattern) by {
            if locs.contains(x) && x != l {
                let j = choose|j: int| 0 <= j < locs.len() && locs[j] == x;
                assert(init[j] == x);
            }
            if init.contains(x) {
                let j = choose|j: int| 0 <= j < init.len() && init[j] == x;
                assert(locs[j] == x);
            }
            if matching(locs, pattern).contains(x) && contains_text(l, pattern) && x != l {
                let j = choose|j: int| 0 <= j < m.push(l).len() && m.push(l)[j] == x;
                assert(m[j] == x);
            }
            if m.contains(x) && contains_text(l, pattern) {
                let j = choose|j: int| 0 <= j < m.len() && m[j] == x;
                assert(m.push(l)[j] == x);
            }
            if x == l && contains_text(x, pattern) {
                assert(m.push(l)[m.len() as int] == x);
            }
        }
    }
}

/// Whether `pattern` occurs in `s` at index `at`.
fn occurs_at_exec(s: &Vec<char>, pattern: &Vec<char>, at: usize) -> (res: bool)
    requires
        at + pattern@.len() <= s@.len(),
    ensures
        res == occurs_at(s@, pattern@, at as int),
{
    let mut k: usize = 0;
    let n = s.len();
    while k < pattern.len()
        invariant
            n == s@.len(),
            k <= pattern@.len(),
            at + pattern@.len() <= s@.len(),
            forall|j: int| 0 <= j < k ==> s@[at + j] == pattern@[j],
        decreases pattern.len() - k,
    {
        assert(at + k < s@.len());
        if s[at + k] != pattern[k] {
            assert(s@.subrange(at as int, at + pattern@.len())[k as int] != pattern@[k as int]);
            return false;
        }
        k = k + 1;
    }
    assert(s@.subrange(at as int, at + pattern@.len()) =~= pattern@);
    true
}

/// Whether `pattern` occurs in `s`.
fn contains_chars(s: &Vec<char>, pattern: &Vec<char>) -> (res: bool)
    ensures
        res == contains_text(s@, pattern@),
{
    if pattern.len() == 0 {
        assert(s@.subrange(0, 0) =~= pattern@);
        assert(occurs_at(s@, pattern@, 0));
        return true;
    }
    if pattern.len() > s.len() {
        assert(!contains_text(s@, pattern@));
        return false;
    }
    let last = s.len() - pattern.len();
    let mut at: usize = 0;
    let n = s.len();
    while at <= last
        invariant
            n == s@.len(),
            pattern@.len() >= 1,
            last + pattern@.len() == s@.len(),
            at <= last + 1,
            forall|j: int| 0 <= j < at ==> !occurs_at(s@, pattern@, j),
        decreases last + 1 - at,
    {
        if occurs_at_exec(s, pattern, at) {
            return true;
        }
        at = at + 1;
    }
    assert(!contains_text(s@, pattern@));
    false
}

/// Whether the text `s` contains `pattern`.
pub fn contains_str(s: &str, pattern: &str) -> (res: bool)
    ensures
        res == contains_text(s@, pattern@),
{
    let sc = chars_of(s);
    let pc = chars_of(pattern);
    contains_chars(&sc, &pc)
}

/// What a search over downloaded sitemaps has found so far.
pub struct SearchResult {
    /// The matching page locations, in the order met.
    pub matches: Vec<String>,
    /// The number of `<urlset>` files read.
    pub sitemaps_scanned: usize,
    /// The number of page locations read.
    pub loc_entries_scanned: usize,
}

/// The value of a [`SearchResult`].
pub struct SearchView {
    pub matches: Seq<Seq<char>>,
    pub sitemaps_scanned: nat,
    pub loc_entries_scanned: nat,
}

impl View for SearchResult {
    type V = SearchView;

    open spec fn view(&self) -> SearchView {
        SearchView {
            matches: strings_view(self.matches@),
            sitemaps_scanned: self.sitemaps_scanned as nat,
            loc_entries_scanned: self.loc_entries_scanned as nat,
        }
    }
}

/// A file as the search reads it: what it lists, or `None` where it is no
/// sitemap.
pub open spec fn file_view(parsed: Option<SitemapKind>) -> Option<SitemapKindView> {
    match parsed {
        Some(k) => Some(k@),
        None => None,
    }
}

/// A search that has read nothing.
pub open spec fn empty_search() -> SearchView {
    SearchView { matches: Seq::empty(), sitemaps_scanned: 0, loc_entries_scanned: 0 }
}

/// The search `s` after it reads one more file: a `<urlset>` counts, with
/// its locations, and adds those that contain `pattern`; anything else
/// leaves it as it was.
pub open spec fn search_step(s: SearchView, file: Option<SitemapKindView>, pattern: Seq<char>) -> SearchView {
    match file {
        Some(SitemapKindView::UrlSet(locs)) => SearchView {
            matches: s.matches + matching(locs, pattern),
            sitemaps_scanned: s.sitemaps_scanned + 1,
            loc_entries_scanned: s.loc_entries_scanned + locs.len(),
        },
        _ => s,
    }
}

/// The search `s` after it reads `files`, in order.
pub open spec fn search_over(s: SearchView, files: Seq<Option<SitemapKindView>>, pattern: Seq<char>) -> SearchView
    decreases files.len(),
{
    if files.len() == 0 {
        s
    } else {
        search_step(search_over(s, files.drop_last(), pattern), files.last(), pattern)
    }
}

/// The results of two searches, one after the other: the matches of the
/// first, then those of the second, and the counts of both together.
pub open spec fn joined_search(first: SearchView, second: SearchView) -> SearchView {
    SearchView {
        matches: first.matches + second.matches,
        sitemaps_scanned: first.sitemaps_scanned + second.sitemaps_scanned,
        loc_entries_scanned: first.loc_entries_scanned + second.loc_entries_scanned,
    }
}

proof fn lemma_search_from(s: SearchView, files: Seq<Option<SitemapKindView>>, pattern: Seq<char>)
    ensures
        search_over(s, files, pattern) == joined_search(s, search_over(empty_search(), files, pattern)),
    decreases files.len(),
{
    if files.len() == 0 {
        assert(s.matches + Seq::<Seq<char>>::empty() =~= s.matches);
    } else {
        let init = files.drop_last();
        lemma_search_from(s, init, pattern);
        let r = search_over(empty_search(), init, pattern);
        if let Some(SitemapKindView::UrlSet(locs)) = files.last() {
            assert((s.matches + r.matches) + matching(locs, pattern) =~= s.matches + (r.matches
                + matching(locs, pattern)));
        }
    }
}

proof fn lemma_search_split(
    s: SearchView,
    a: Seq<Option<SitemapKindView>>,
    b: Seq<Option<SitemapKindView>>,
    pattern: Seq<char>,
)
    ensures
        search_over(s, a + b, pattern) == search_over(search_over(s, a, pattern), b, pattern),
    decreases b.len(),
{
    if b.len() == 0 {
        assert(a + b =~= a);
    } else {
        lemma_search_split(s, a, b.drop_last(), pattern);
        assert((a + b).drop_last() =~= a + b.drop_last());
        assert((a + b).last() == b.last());
    }
}

/// A search over the files `a` and then the files `b` finds the matches of a
/// search over `a` followed by those of a search over `b`, and scans as many
/// sitemaps and locations as the two searches together.
pub proof fn lemma_search_concat(
    a: Seq<Option<SitemapKindView>>,
    b: Seq<Option<SitemapKindView>>,
    pattern: Seq<char>,
)
    ensures
        search_over(empty_search(), a + b, pattern) == joined_search(
            search_over(empty_search(), a, pattern),
            search_over(empty_search(), b, pattern),
        ),
{
    lemma_search_split(empty_search(), a, b, pattern);
    lemma_search_from(search_over(empty_search(), a, pattern), b, pattern);
}

impl SearchResult {
    /// A search that has read nothing.
    pub fn new() -> (r: SearchResult)
        ensures
            r@ == empty_search(),
    {
        let r = SearchResult { matches: Vec::new(), sitemaps_scanned: 0, loc_entries_scanned: 0 };
        assert(strings_view(r.matches@) =~= Seq::<Seq<char>>::empty());
        r
    }

    /// Takes in one downloaded file as read: a `<urlset>` counts and its
    /// locations that contain `substring` are added; a sitemap index or a
    /// file that is no sitemap leaves the search as it was (their locations
    /// point at other sitemaps, not at pages).
    pub fn add(&mut self, parsed: Option<SitemapKind>, substring: &str)
        requires
            parsed matches Some(SitemapKind::UrlSet(locs)) ==> {
                &&& old(self).sitemaps_scanned < usize::MAX
                &&& old(self).loc_entries_scanned + locs@.len() <= usize::MAX
            },
        ensures
            match parsed {
                Some(SitemapKind::UrlSet(locs)) => {
                    &&& final(self).sitemaps_scanned == old(self).sitemaps_scanned + 1
                    &&& final(self).loc_entries_scanned == old(self).loc_entries_scanned + locs@.len()
                    &&& strings_view(final(self).matches@) == strings_view(old(self).matches@)
                        + matching(strings_view(locs@), substring@)
                },
                _ => {
                    &&& final(self).sitemaps_scanned == old(self).sitemaps_scanned
                    &&& final(self).loc_entries_scanned == old(self).loc_entries_scanned
                    &&& strings_view(final(self).matches@) == strings_view(old(self).matches@)
                },
            },
            final(self)@ == search_step(old(self)@, file_view(parsed), substring@),
    {
        if let Some(SitemapKind::UrlSet(locs)) = parsed {
            self.sitemaps_scanned = self.sitemaps_scanned + 1;
            self.loc_entries_scanned = self.loc_entries_scanned + locs.len();
            let pattern = chars_of(substring);
            let ghost start = strings_view(self.matches@);
            let ghost all = strings_view(locs@);
            let mut i: usize = 0;
            let mut rest = locs;
            // Walk the locations in order, moving each kept one into `matches`.
            let mut kept: Vec<String> = Vec::new();
            while i < rest.len()
                invariant
                    i <= rest@.len(),
                    strings_view(rest@) == all,
                    strings_view(kept@) == matching(all.take(i as int), pattern@),
                decreases rest.len() - i,
            {
                let item = rest[i].clone();
                let chars = chars_of(item.as_str());
                let ghost before = kept@;
                proof {
                    assert(all.take(i + 1).drop_last() =~= all.take(i as int));
                    assert(all.take(i + 1).last() == all[i as int]);
                    assert(all[i as int] == rest@[i as int]@);
                }
                if contains_chars(&chars, &pattern) {
                    kept.push(item);
                    assert(strings_view(kept@) =~= strings_view(before).push(item@));
                }
                i = i + 1;
            }
            assert(all.take(rest@.len() as int) =~= all);
            let mut j: usize = 0;
            let ghost old_matches = self.matches@;
            while j < kept.len()
                invariant
                    j <= kept@.len(),
                    strings_view(self.matches@) == start + strings_view(kept@).take(j as int),
                    self.sitemaps_scanned == old(self).sitemaps_scanned + 1,
                    self.loc_entries_scanned == old(self).loc_entries_scanned + all.len(),
                    start == strings_view(old(self).matches@),
                    all == strings_view(rest@),
                decreases kept.len() - j,
            {
                let item = kept[j].clone();
                let ghost before = self.matches@;
                self.matches.push(item);
                assert(strings_view(self.matches@) =~= strings_view(before).push(item@));
                assert(strings_view(kept@).take(j + 1) =~= strings_view(kept@).take(j as int).push(kept@[j as int]@));
                j = j + 1;
            }
            assert(strings_view(kept@).take(kept@.len() as int) =~= strings_view(kept@));
        }
    }
}

} // verus!
