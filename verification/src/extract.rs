//! Where the sitemaps of an exported content package are copied to.
//!
//! A file at `<source>/<domain>/<a>/<b>/name.xml` goes to
//! `./sitemaps/<domain>/` under the flat name `a-b-name.xml`, sanitized, so
//! that the extracted tree has the layout that a fetch produces.
use vstd::prelude::*;
use vstd::string::StringExecFns;

use crate::names::{sanitize_filename, sanitized};
use crate::sitemap::{ParsedSitemap, SitemapKind};

verus! {

broadcast use vstd::string::group_string_axioms;

/// The texts of `parts` joined with `sep` between each two.
pub open spec fn joined(parts: Seq<Seq<char>>, sep: Seq<char>) -> Seq<char>
    decreases parts.len(),
{
    if parts.len() == 0 {
        Seq::empty()
    } else if parts.len() == 1 {
        parts[0]
    } else {
        joined(parts.drop_last(), sep) + sep + parts.last()
    }
}

/// Joining one part gives that part alone, and each further part is added
/// after the separator, once.
pub proof fn lemma_joined_parts(parts: Seq<Seq<char>>, p: Seq<char>, sep: Seq<char>)
    ensures
        joined(seq![p], sep) == p,
        parts.len() > 0 ==> joined(parts.push(p), sep) == joined(parts, sep) + sep + p,
{
    assert(parts.push(p).drop_last() =~= parts);
}

/// Joining two nonempty runs of parts is joining each and putting the
/// separator once between them.
pub proof fn lemma_joined_concat(a: Seq<Seq<char>>, b: Seq<Seq<char>>, sep: Seq<char>)
    requires
        a.len() > 0,
        b.len() > 0,
    ensures
        joined(a + b, sep) == joined(a, sep) + sep + joined(b, sep),
    decreases b.len(),
{
    if b.len() == 1 {
        assert((a + b).drop_last() =~= a);
        assert((a + b).last() == b[0]);
    } else {
        lemma_joined_concat(a, b.drop_last(), sep);
        assert((a + b).drop_last() =~= a + b.drop_last());
        assert((a + b).last() == b.last());
        assert(joined(a, sep) + sep + joined(b.drop_last(), sep) + sep + b.last() =~= joined(a, sep) + sep + (
        joined(b.drop_last(), sep) + sep + b.last()));
    }
}

/// The joined text is as long as the parts together, with one separator
/// between each two of them.
pub proof fn lemma_joined_len(parts: Seq<Seq<char>>, sep: Seq<char>)
    requires
        parts.len() > 0,
    ensures
        joined(parts, sep).len() == parts.fold_left(0int, |n: int, q: Seq<char>| n + q.len()) + (parts.len() - 1)
            * sep.len(),
    decreases parts.len(),
{
    if parts.len() == 1 {
        assert(parts.drop_last() =~= Seq::<Seq<char>>::empty());
        reveal_with_fuel(Seq::fold_left, 2);
    } else {
        lemma_joined_len(parts.drop_last(), sep);
        assert((parts.len() - 1) * sep.len() == (parts.len() - 2) * sep.len() + sep.len()) by (nonlinear_arith);
    }
}

/// A file directly in its domain's folder keeps its own name, sanitized.
pub proof fn lemma_file_in_domain_folder(domain: Seq<char>, name: Seq<char>)
    ensures
        sanitized(joined(seq![domain, name].drop_first(), seq!['-'])) == sanitized(name),
{
    assert(seq![domain, name].drop_first() =~= seq![name]);
}

pub open spec fn texts(v: Seq<String>) -> Seq<Seq<char>> {
    v.map_values(|s: String| s@)
}

/// Why an extracted file has no destination.
#[derive(Debug)]
pub enum ExtractError {
    /// The file's path below the source directory has no component.
    NoDomainComponent,
}

/// Where a file whose path below the source directory has the components
/// `components` is copied: the domain directory (its first component) and
/// the sanitized flat name (the other components joined with `-`).
pub fn flattened_destination(components: &Vec<String>) -> (res: Result<(String, String), ExtractError>)
    ensures
        components@.len() == 0 <==> res is Err,
        res matches Ok((domain, name)) ==> {
            &&& domain@ == components@[0]@
            &&& name@ == sanitized(joined(texts(components@).drop_first(), seq!['-']))
        },
{
    if components.len() == 0 {
        return Err(ExtractError::NoDomainComponent);
    }
    let domain = components[0].clone();
    let ghost rest = texts(components@).drop_first();
    let mut flat = String::new();
    let mut i: usize = 1;
    proof {
        reveal_strlit("-");
    }
    while i < components.len()
        invariant
            1 <= i <= components@.len(),
            rest == texts(components@).drop_first(),
            flat@ == joined(rest.take(i - 1), seq!['-']),
        decreases components.len() - i,
    {
        let ghost before = flat@;
        if i > 1 {
            flat.append("-");
            proof {
                reveal_strlit("-");
                assert("-"@ =~= seq!['-']);
            }
        }
        flat.append(components[i].as_str());
        proof {
            let taken = rest.take(i as int);
            assert(taken.drop_last() =~= rest.take(i - 1));
            assert(taken.last() == components@[i as int]@);
            assert(rest[i - 1] == components@[i as int]@);
            if i == 1 {
                assert(taken =~= seq![components@[1]@]);
                assert(before =~= Seq::<char>::empty());
                assert(flat@ =~= components@[1]@);
                assert(joined(taken, seq!['-']) == taken[0]);
            } else {
                assert(flat@ =~= before + seq!['-'] + components@[i as int]@);
                assert(joined(taken, seq!['-']) == joined(taken.drop_last(), seq!['-']) + seq!['-'] + taken.last());
            }
        }
        i = i + 1;
    }
    assert(rest.take(components@.len() - 1) =~= rest);
    let name = sanitize_filename(flat.as_str());
    Ok((domain, name))
}

/// What an extraction amounts to.
pub struct ExtractStats {
    pub sitemaps_extracted: usize,
    pub files_skipped: usize,
    pub loc_entries_found: usize,
}

impl ExtractStats {
    pub fn new() -> (s: ExtractStats)
        ensures
            s.sitemaps_extracted == 0 && s.files_skipped == 0 && s.loc_entries_found == 0,
    {
        ExtractStats { sitemaps_extracted: 0, files_skipped: 0, loc_entries_found: 0 }
    }

    /// Records a file that was unreadable or no sitemap, and was not copied.
    pub fn record_skipped(&mut self)
        requires
            old(self).files_skipped < usize::MAX,
        ensures
            final(self).files_skipped == old(self).files_skipped + 1,
            final(self).sitemaps_extracted == old(self).sitemaps_extracted,
            final(self).loc_entries_found == old(self).loc_entries_found,
    {
        self.files_skipped = self.files_skipped + 1;
    }

    /// Records a copied sitemap: a `<urlset>` adds its locations.
    pub fn record_extracted(&mut self, parsed: &ParsedSitemap)
        requires
            old(self).sitemaps_extracted < usize::MAX,
            parsed.kind matches SitemapKind::UrlSet(l) ==> old(self).loc_entries_found + l@.len() <= usize::MAX,
        ensures
            final(self).sitemaps_extracted == old(self).sitemaps_extracted + 1,
            final(self).files_skipped == old(self).files_skipped,
            final(self).loc_entries_found == old(self).loc_entries_found + match parsed.kind {
                SitemapKind::UrlSet(l) => l@.len(),
                SitemapKind::Index(_) => 0,
            },
    {
        self.sitemaps_extracted = self.sitemaps_extracted + 1;
        if let SitemapKind::UrlSet(l) = &parsed.kind {
            self.loc_entries_found = self.loc_entries_found + l.len();
        }
    }
}

} // verus!
