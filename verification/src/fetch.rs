//! The decisions of a sitemap crawl: where a fetched tree is saved, under
//! which file name each sitemap goes, and what each fetch adds to the tally.
use vstd::prelude::*;

use crate::names::{ascii_lower, is_fresh_name_for, lower, sanitize_filename, sanitized, NameRegistry};
use crate::sitemap::{strings_view, SitemapKind};
use crate::text::{chars_of, decimal, push_char, push_decimal};

verus! {

broadcast use vstd::string::group_string_axioms;

/// The parts of a parsed URL that a crawl reads.
pub struct UrlParts {
    /// The scheme, such as `https`.
    pub scheme: String,
    /// The host, where the URL has one.
    pub host: Option<String>,
    /// The port, where the URL names one other than its scheme's default.
    pub port: Option<u16>,
    /// The path, percent-encoded as the URL holds it.
    pub path: String,
}

pub struct UrlPartsView {
    pub scheme: Seq<char>,
    pub host: Option<Seq<char>>,
    pub port: Option<u16>,
    pub path: Seq<char>,
}

impl View for UrlParts {
    type V = UrlPartsView;

    open spec fn view(&self) -> UrlPartsView {
        UrlPartsView {
            scheme: self.scheme@,
            host: match self.host {
                Some(h) => Some(h@),
                None => None,
            },
            port: self.port,
            path: self.path@,
        }
    }
}

pub open spec fn parts_view(p: Option<UrlParts>) -> Option<UrlPartsView> {
    match p {
        Some(parts) => Some(parts@),
        None => None,
    }
}

/// What the url crate's `Url::parse` makes of `url`: its scheme, host, port
/// and path, or `None` where `url` is not a valid URL.
pub uninterp spec fn parsed_url(url: Seq<char>) -> Option<UrlPartsView>;

/// Parses `url` with the url crate's `Url::parse` and reads its scheme
/// (`Url::scheme`), host (`Url::host_str`), port (`Url::port`) and path
/// (`Url::path`).
#[verifier::external_body]
pub(crate) fn parse_url(url: &str) -> (res: Option<UrlParts>)
    ensures
        parts_view(res) == parsed_url(url@),
{
    match url::Url::parse(url) {
        Ok(u) => Some(UrlParts {
            scheme: u.scheme().to_string(),
            host: u.host_str().map(|h| h.to_string()),
            port: u.port(),
            path: u.path().to_string(),
        }),
        Err(_) => None,
    }
}

/// The text after the last `/` of `path`.
pub open spec fn after_last_slash(path: Seq<char>) -> Seq<char>
    decreases path.len(),
{
    if path.len() == 0 {
        path
    } else if path.last() == '/' {
        Seq::empty()
    } else {
        after_last_slash(path.drop_last()).push(path.last())
    }
}

/// The last segment of a URL path: for a path that starts with `/`, the
/// text after its last `/`; none for any other path.
pub open spec fn last_segment(path: Seq<char>) -> Option<Seq<char>> {
    if path.len() > 0 && path[0] == '/' {
        Some(after_last_slash(path))
    } else {
        None
    }
}

/// `sitemap.xml`
pub open spec fn default_file_name() -> Seq<char> {
    seq!['s', 'i', 't', 'e', 'm', 'a', 'p', '.', 'x', 'm', 'l']
}

/// The unsanitized file name of a fetched URL: its last path segment where
/// that is not empty, else `sitemap.xml`.
pub open spec fn raw_file_name(parts: Option<UrlPartsView>) -> Seq<char> {
    match parts {
        Some(p) => match last_segment(p.path) {
            Some(seg) => if seg.len() > 0 {
                seg
            } else {
                default_file_name()
            },
            None => default_file_name(),
        },
        None => default_file_name(),
    }
}

/// Why no directory can be named after a URL.
pub enum UrlError {
    /// The URL does not parse.
    InvalidUrl,
    /// The URL has no host.
    NoHost,
}

/// The host of a URL, or why there is none.
pub open spec fn host_of(parts: Option<UrlPartsView>) -> Result<Seq<char>, UrlError> {
    match parts {
        None => Err(UrlError::InvalidUrl),
        Some(p) => match p.host {
            Some(h) => Ok(h),
            None => Err(UrlError::NoHost),
        },
    }
}

/// The text after the last `/` of `path`.
fn after_last_slash_of(path: &Vec<char>) -> (res: Vec<char>)
    ensures
        res@ == after_last_slash(path@),
{
    let mut start: usize = path.len();
    while start > 0 && path[start - 1] != '/'
        invariant
            start <= path@.len(),
            forall|k: int| start <= k < path@.len() ==> path@[k] != '/',
        decreases start,
    {
        start = start - 1;
    }
    let mut out: Vec<char> = Vec::new();
    let mut i: usize = start;
    while i < path.len()
        invariant
            start <= i <= path@.len(),
            out@ == path@.subrange(start as int, i as int),
        decreases path.len() - i,
    {
        out.push(path[i]);
        i = i + 1;
        assert(out@ =~= path@.subrange(start as int, i as int));
    }
    proof {
        lemma_after_last_slash(path@, start as int);
    }
    out
}

proof fn lemma_after_last_slash(path: Seq<char>, start: int)
    requires
        0 <= start <= path.len(),
        forall|k: int| start <= k < path.len() ==> path[k] != '/',
        start == 0 || path[start - 1] == '/',
    ensures
        after_last_slash(path) == path.subrange(start, path.len() as int),
    decreases path.len(),
{
    if path.len() == 0 {
        assert(path.subrange(start, 0) =~= path);
    } else if path.last() == '/' {
        assert(start == path.len());
        assert(path.subrange(start, path.len() as int) =~= Seq::<char>::empty());
    } else {
        let shorter = path.drop_last();
        lemma_after_last_slash(shorter, start);
        assert(path.subrange(start, path.len() as int) =~= shorter.subrange(start, shorter.len() as int).push(path.last()));
    }
}

/// The file name under which the sitemap fetched from a URL with the given
/// parts is saved (before it is made unique).
pub fn file_name_from_parts(parts: &Option<UrlParts>) -> (res: String)
    ensures
        res@ == sanitized(raw_file_name(parts_view(*parts))),
{
    proof {
        reveal_strlit("sitemap.xml");
    }
    match parts {
        Some(p) => {
            let path = chars_of(p.path.as_str());
            if path.len() > 0 && path[0] == '/' {
                let seg = after_last_slash_of(&path);
                if seg.len() > 0 {
                    let raw = crate::text::string_of(&seg);
                    return sanitize_filename(raw.as_str());
                }
            }
            assert("sitemap.xml"@ =~= default_file_name());
            sanitize_filename("sitemap.xml")
        },
        None => {
            assert("sitemap.xml"@ =~= default_file_name());
            sanitize_filename("sitemap.xml")
        },
    }
}

/// The file name under which the sitemap fetched from `url` is saved
/// (before it is made unique): the URL's last path segment, sanitized, or
/// `sitemap.xml`.
pub fn url_file_name(url: &str) -> (res: String)
    ensures
        res@ == sanitized(raw_file_name(parsed_url(url@))),
{
    let parts = parse_url(url);
    file_name_from_parts(&parts)
}

/// The host named by a URL with the given parts.
pub fn host_from_parts(parts: Option<UrlParts>) -> (res: Result<String, UrlError>)
    ensures
        match res {
            Ok(h) => host_of(parts_view(parts)) == Ok::<Seq<char>, UrlError>(h@),
            Err(e) => host_of(parts_view(parts)) == Err::<Seq<char>, UrlError>(e),
        },
{
    match parts {
        None => Err(UrlError::InvalidUrl),
        Some(p) => match p.host {
            Some(h) => Ok(h),
            None => Err(UrlError::NoHost),
        },
    }
}

/// The host of `url`, which names the directory that a fetched tree is
/// saved in; an error where `url` does not parse or has no host.
pub fn sitemap_host(url: &str) -> (res: Result<String, UrlError>)
    ensures
        match res {
            Ok(h) => host_of(parsed_url(url@)) == Ok::<Seq<char>, UrlError>(h@),
            Err(e) => host_of(parsed_url(url@)) == Err::<Seq<char>, UrlError>(e),
        },
{
    host_from_parts(parse_url(url))
}

/// The name under which the sitemap fetched from `url` is saved: its file
/// name, made unique among the names already given out in `used`.
pub fn unique_name(url: &str, used: &mut NameRegistry) -> (name: String)
    requires
        old(used)@.len() < usize::MAX,
    ensures
        !old(used)@.contains(name@),
        final(used)@ == old(used)@.insert(name@),
        is_fresh_name_for(old(used)@, sanitized(raw_file_name(parsed_url(url@))), name@),
{
    let base = url_file_name(url);
    used.claim(base.as_str())
}

/// The tally of a crawl.
pub struct FetchStats {
    pub sitemaps_downloaded: usize,
    pub sitemaps_failed: usize,
    pub loc_entries_found: usize,
}

impl FetchStats {
    pub fn new() -> (s: FetchStats)
        ensures
            s.sitemaps_downloaded == 0,
            s.sitemaps_failed == 0,
            s.loc_entries_found == 0,
    {
        FetchStats { sitemaps_downloaded: 0, sitemaps_failed: 0, loc_entries_found: 0 }
    }

    /// Records the outcome of one fetch (`None` for a failed one) and returns
    /// the sitemaps that it leads on to: the children of an index, none
    /// otherwise.
    pub fn record(&mut self, outcome: Option<&SitemapKind>) -> (children: Vec<String>)
        requires
            outcome is Some ==> old(self).sitemaps_downloaded < usize::MAX,
            outcome is None ==> old(self).sitemaps_failed < usize::MAX,
            outcome matches Some(SitemapKind::UrlSet(locs)) ==> old(self).loc_entries_found + locs.len() <= usize::MAX,
        ensures
            match outcome {
                Some(SitemapKind::Index(list)) => {
                    &&& strings_view(children@) == strings_view(list@)
                    &&& final(self).sitemaps_downloaded == old(self).sitemaps_downloaded + 1
                    &&& final(self).sitemaps_failed == old(self).sitemaps_failed
                    &&& final(self).loc_entries_found == old(self).loc_entries_found
                },
                Some(SitemapKind::UrlSet(locs)) => {
                    &&& children@.len() == 0
                    &&& final(self).sitemaps_downloaded == old(self).sitemaps_downloaded + 1
                    &&& final(self).sitemaps_failed == old(self).sitemaps_failed
                    &&& final(self).loc_entries_found == old(self).loc_entries_found + locs.len()
                },
                None => {
                    &&& children@.len() == 0
                    &&& final(self).sitemaps_downloaded == old(self).sitemaps_downloaded
                    &&& final(self).sitemaps_failed == old(self).sitemaps_failed + 1
                    &&& final(self).loc_entries_found == old(self).loc_entries_found
                },
            },
    {
        match outcome {
            Some(SitemapKind::Index(list)) => {
                self.sitemaps_downloaded = self.sitemaps_downloaded + 1;
                let mut out: Vec<String> = Vec::new();
                let mut i: usize = 0;
                while i < list.len()
                    invariant
                        i <= list@.len(),
                        out@.len() == i,
                        forall|k: int| 0 <= k < i ==> #[trigger] out@[k]@ == list@[k]@,
                    decreases list.len() - i,
                {
                    let item = list[i].clone();
                    assert(item@ == list@[i as int]@);
                    let ghost before = out@;
                    out.push(item);
                    assert(out@ == before.push(item));
                    i = i + 1;
                }
                assert(strings_view(out@) =~= strings_view(list@));
                out
            },
            Some(SitemapKind::UrlSet(locs)) => {
                self.sitemaps_downloaded = self.sitemaps_downloaded + 1;
                self.loc_entries_found = self.loc_entries_found + locs.len();
                Vec::new()
            },
            None => {
                self.sitemaps_failed = self.sitemaps_failed + 1;
                Vec::new()
            },
        }
    }
}


/// `/robots.txt`
pub open spec fn robots_path() -> Seq<char> {
    seq!['/', 'r', 'o', 'b', 'o', 't', 's', '.', 't', 'x', 't']
}

/// Whether a URL path names no page of its site: it is empty or `/`.
pub open spec fn is_bare_path(path: Seq<char>) -> bool {
    path.len() == 0 || path == seq!['/']
}

/// The `robots.txt` of the site of a URL with the parts `p` and the host
/// `host`: `<scheme>://<host>[:<port>]/robots.txt`.
pub open spec fn robots_location(p: UrlPartsView, host: Seq<char>) -> Seq<char> {
    p.scheme + seq![':', '/', '/'] + host + match p.port {
        Some(n) => seq![':'] + decimal(n as nat),
        None => Seq::<char>::empty(),
    } + robots_path()
}

/// Where the sitemaps of a site are looked up when a crawl starts from a
/// URL with these parts: its site's `robots.txt` where the URL has a host
/// and names no page, nowhere otherwise.
pub open spec fn robots_txt_location(parts: Option<UrlPartsView>) -> Option<Seq<char>> {
    match parts {
        Some(p) => match p.host {
            Some(h) => if is_bare_path(p.path) {
                Some(robots_location(p, h))
            } else {
                None
            },
            None => None,
        },
        None => None,
    }
}

/// Appends the characters of `s` to `out`.
fn append_str(out: &mut String, s: &str)
    ensures
        final(out)@ == old(out)@ + s@,
{
    let chars = chars_of(s);
    let mut i: usize = 0;
    while i < chars.len()
        invariant
            i <= chars@.len(),
            chars@ == s@,
            out@ == old(out)@ + chars@.take(i as int),
        decreases chars.len() - i,
    {
        push_char(out, chars[i]);
        i = i + 1;
        assert(chars@.take(i as int) =~= chars@.take(i - 1).push(chars@[i - 1]));
        assert(old(out)@ + chars@.take(i as int) =~= (old(out)@ + chars@.take(i - 1)).push(chars@[i - 1]));
    }
    assert(chars@.take(chars@.len() as int) =~= chars@);
}

/// The `robots.txt` address at which the sitemaps are looked up when a
/// crawl starts from a URL with the given parts (see `robots_txt_url`).
pub fn robots_url_from_parts(parts: &Option<UrlParts>) -> (res: Option<String>)
    ensures
        match res {
            Some(r) => robots_txt_location(parts_view(*parts)) == Some(r@),
            None => robots_txt_location(parts_view(*parts)) is None,
        },
{
    proof {
        reveal_strlit("://");
        reveal_strlit("/robots.txt");
    }
    match parts {
        None => None,
        Some(p) => match &p.host {
            None => None,
            Some(h) => {
                let path = chars_of(p.path.as_str());
                let bare = path.len() == 0 || (path.len() == 1 && path[0] == '/');
                proof {
                    if path.len() == 1 && path[0] == '/' {
                        assert(path@ =~= seq!['/']);
                    }
                }
                if !bare {
                    return None;
                }
                let mut out = String::new();
                append_str(&mut out, p.scheme.as_str());
                append_str(&mut out, "://");
                append_str(&mut out, h.as_str());
                let ghost before_port = out@;
                match p.port {
                    Some(n) => {
                        push_char(&mut out, ':');
                        push_decimal(&mut out, n as u64);
                        assert(out@ =~= before_port + (seq![':'] + decimal(n as nat)));
                    },
                    None => {
                        assert(out@ =~= before_port + Seq::<char>::empty());
                    },
                }
                append_str(&mut out, "/robots.txt");
                assert("://"@ =~= seq![':', '/', '/']);
                assert("/robots.txt"@ =~= robots_path());
                Some(out)
            },
        },
    }
}

/// Where the sitemaps of a crawl that starts from `url` are declared: the
/// `robots.txt` of its site, where `url` has a host and no path beyond `/`;
/// `None` where the crawl starts from `url` itself.
pub fn robots_txt_url(url: &str) -> (res: Option<String>)
    ensures
        match res {
            Some(r) => robots_txt_location(parsed_url(url@)) == Some(r@),
            None => robots_txt_location(parsed_url(url@)) is None,
        },
{
    let parts = parse_url(url);
    robots_url_from_parts(&parts)
}

/// The padding that `robots.txt` lines may carry around fields and values.
pub open spec fn is_blank(c: char) -> bool {
    c == ' ' || c == '\t' || c == '\r'
}

/// `s` without its leading blanks.
pub open spec fn trim_start(s: Seq<char>) -> Seq<char>
    decreases s.len(),
{
    if s.len() > 0 && is_blank(s[0]) {
        trim_start(s.drop_first())
    } else {
        s
    }
}

/// `s` without its trailing blanks.
pub open spec fn trim_end(s: Seq<char>) -> Seq<char>
    decreases s.len(),
{
    if s.len() > 0 && is_blank(s.last()) {
        trim_end(s.drop_last())
    } else {
        s
    }
}

/// `s` without blanks at either end.
pub open spec fn trimmed(s: Seq<char>) -> Seq<char> {
    trim_end(trim_start(s))
}

/// The lines of `text`: the pieces between its `\n` characters, the last
/// one included (empty where `text` ends with `\n`).
pub open spec fn split_lines(text: Seq<char>) -> Seq<Seq<char>>
    decreases text.len(),
{
    if text.len() == 0 {
        seq![Seq::<char>::empty()]
    } else {
        let init = split_lines(text.drop_last());
        if text.last() == '\n' {
            init.push(Seq::<char>::empty())
        } else {
            init.update(init.len() - 1, init.last().push(text.last()))
        }
    }
}

/// The index of the first `:` of `line`, where it has one.
pub open spec fn colon_index(line: Seq<char>) -> Option<int>
    decreases line.len(),
{
    if line.len() == 0 {
        None
    } else if line[0] == ':' {
        Some(0)
    } else {
        match colon_index(line.drop_first()) {
            Some(k) => Some(k + 1),
            None => None,
        }
    }
}

/// `sitemap`
pub open spec fn sitemap_field() -> Seq<char> {
    seq!['s', 'i', 't', 'e', 'm', 'a', 'p']
}

/// Whether `name` is `sitemap` in any mix of upper and lower case.
pub open spec fn is_sitemap_field(name: Seq<char>) -> bool {
    name.map_values(|c: char| ascii_lower(c)) == sitemap_field()
}

/// The sitemap that a `robots.txt` line declares: where the line's field
/// name (before its first `:`, blanks trimmed) is `Sitemap` in any case,
/// the value after that `:` with blanks trimmed, unless it is empty.
pub open spec fn sitemap_value(line: Seq<char>) -> Option<Seq<char>> {
    match colon_index(line) {
        Some(k) => {
            let value = trimmed(line.skip(k + 1));
            if is_sitemap_field(trimmed(line.take(k))) && value.len() > 0 {
                Some(value)
            } else {
                None
            }
        },
        None => None,
    }
}

/// The sitemaps that `lines` declare, in order.
pub open spec fn sitemap_values(lines: Seq<Seq<char>>) -> Seq<Seq<char>>
    decreases lines.len(),
{
    if lines.len() == 0 {
        Seq::empty()
    } else {
        let init = sitemap_values(lines.drop_last());
        match sitemap_value(lines.last()) {
            Some(v) => init.push(v),
            None => init,
        }
    }
}

/// The sitemaps that the `robots.txt` text `text` declares, in order.
pub open spec fn declared_sitemaps(text: Seq<char>) -> Seq<Seq<char>> {
    sitemap_values(split_lines(text))
}

proof fn lemma_split_lines_nonempty(text: Seq<char>)
    ensures
        split_lines(text).len() >= 1,
    decreases text.len(),
{
    if text.len() > 0 {
        lemma_split_lines_nonempty(text.drop_last());
    }
}

proof fn lemma_split_lines_join(a: Seq<char>, b: Seq<char>)
    ensures
        split_lines(a + seq!['\n'] + b) == split_lines(a) + split_lines(b),
    decreases b.len(),
{
    let x = a + seq!['\n'] + b;
    if b.len() == 0 {
        assert(x.drop_last() =~= a);
        assert(split_lines(a).push(Seq::<char>::empty()) =~= split_lines(a) + split_lines(b));
    } else {
        let b0 = b.drop_last();
        let c = b.last();
        lemma_split_lines_join(a, b0);
        lemma_split_lines_nonempty(b0);
        assert(x.drop_last() =~= a + seq!['\n'] + b0);
        assert(x.last() == c);
        let la = split_lines(a);
        let lb = split_lines(b0);
        if c == '\n' {
            assert((la + lb).push(Seq::<char>::empty()) =~= la + lb.push(Seq::<char>::empty()));
        } else {
            let joint = la + lb;
            assert(joint.update(joint.len() - 1, joint.last().push(c)) =~= la + lb.update(
                lb.len() - 1,
                lb.last().push(c),
            ));
        }
    }
}

proof fn lemma_sitemap_values_concat(x: Seq<Seq<char>>, y: Seq<Seq<char>>)
    ensures
        sitemap_values(x + y) == sitemap_values(x) + sitemap_values(y),
    decreases y.len(),
{
    if y.len() == 0 {
        assert(x + y =~= x);
        assert(sitemap_values(x) + Seq::<Seq<char>>::empty() =~= sitemap_values(x));
    } else {
        lemma_sitemap_values_concat(x, y.drop_last());
        assert((x + y).drop_last() =~= x + y.drop_last());
        assert((x + y).last() == y.last());
        let vx = sitemap_values(x);
        let vy = sitemap_values(y.drop_last());
        if let Some(v) = sitemap_value(y.last()) {
            assert((vx + vy).push(v) =~= vx + vy.push(v));
        }
    }
}

/// The sitemaps of a `robots.txt` are those of its lines, one after
/// another: the text before a line break declares its own, the text after it
/// its own, and neither hides or changes anything of the other (a blank
/// line among them included).
pub proof fn lemma_declared_sitemaps_concat(a: Seq<char>, b: Seq<char>)
    ensures
        declared_sitemaps(a + seq!['\n'] + b) == declared_sitemaps(a) + declared_sitemaps(b),
{
    lemma_split_lines_join(a, b);
    lemma_sitemap_values_concat(split_lines(a), split_lines(b));
}

/// A single line declares at most one sitemap, the one of that line; an
/// empty line declares none.
pub proof fn lemma_declared_sitemaps_line(line: Seq<char>)
    requires
        !line.contains('\n'),
    ensures
        declared_sitemaps(line) == match sitemap_value(line) {
            Some(v) => seq![v],
            None => Seq::<Seq<char>>::empty(),
        },
        declared_sitemaps(Seq::<char>::empty()) == Seq::<Seq<char>>::empty(),
    decreases line.len(),
{
    lemma_single_line(line);
    let one = seq![line];
    assert(one.drop_last() =~= Seq::<Seq<char>>::empty());
    assert(one.last() == line);
    assert(sitemap_values(Seq::<Seq<char>>::empty()) == Seq::<Seq<char>>::empty());
    assert(sitemap_values(one.drop_last()) == Seq::<Seq<char>>::empty());
    assert(sitemap_values(one) == match sitemap_value(line) {
        Some(v) => Seq::<Seq<char>>::empty().push(v),
        None => Seq::<Seq<char>>::empty(),
    });
    if let Some(v) = sitemap_value(line) {
        assert(Seq::<Seq<char>>::empty().push(v) =~= seq![v]);
    }
    let blank = Seq::<char>::empty();
    let lines = split_lines(blank);
    assert(lines == seq![blank]);
    assert(colon_index(blank) is None);
    assert(sitemap_value(blank) is None);
    assert(lines.drop_last() =~= Seq::<Seq<char>>::empty());
    assert(lines.last() == blank);
    assert(sitemap_values(lines) == sitemap_values(lines.drop_last()));
}

proof fn lemma_single_line(line: Seq<char>)
    requires
        !line.contains('\n'),
    ensures
        split_lines(line) == seq![line],
    decreases line.len(),
{
    if line.len() > 0 {
        let init = line.drop_last();
        assert(!init.contains('\n')) by {
            if init.contains('\n') {
                let k = choose|k: int| 0 <= k < init.len() && init[k] == '\n';
                assert(line[k] == '\n');
            }
        }
        lemma_single_line(init);
        assert(line[line.len() - 1] != '\n');
        assert(init.push(line.last()) =~= line);
        assert(seq![init].update(0, init.push(line.last())) =~= seq![line]);
    } else {
        assert(line =~= Seq::<char>::empty());
    }
}

/// Whether every character of `s` is a blank.
pub open spec fn all_blank(s: Seq<char>) -> bool {
    forall|i: int| 0 <= i < s.len() ==> is_blank(#[trigger] s[i])
}

/// A `Sitemap:` line declares the URL written after the colon, exactly: the
/// field may be spelled in any mix of upper and lower case, and blanks
/// around the field and around the URL are no part of either.
pub proof fn lemma_sitemap_line_value(
    pad0: Seq<char>,
    field: Seq<char>,
    pad1: Seq<char>,
    pad2: Seq<char>,
    url: Seq<char>,
    pad3: Seq<char>,
)
    requires
        field.map_values(|c: char| ascii_lower(c)) == sitemap_field(),
        all_blank(pad0),
        all_blank(pad1),
        all_blank(pad2),
        all_blank(pad3),
        url.len() > 0,
        !is_blank(url[0]),
        !is_blank(url.last()),
    ensures
        sitemap_value(pad0 + field + pad1 + seq![':'] + pad2 + url + pad3) == Some(url),
{
    let name = pad0 + field + pad1;
    let value = pad2 + url + pad3;
    let line = name + seq![':'] + value;
    assert(line =~= pad0 + field + pad1 + seq![':'] + pad2 + url + pad3);
    assert(field.map_values(|c: char| ascii_lower(c)).len() == field.len());
    assert(field.len() == 7);
    assert forall|j: int| 0 <= j < 7 implies field[j] != ':' && !is_blank(field[j]) by {
        assert(field.map_values(|c: char| ascii_lower(c))[j] == ascii_lower(field[j]));
        assert(sitemap_field()[j] != ':');
    }
    let k = name.len() as int;
    assert forall|j: int| 0 <= j < k implies line[j] != ':' by {
        if j < pad0.len() {
            assert(line[j] == pad0[j]);
        } else if j < pad0.len() + 7 {
            assert(line[j] == field[j - pad0.len()]);
        } else {
            assert(line[j] == pad1[j - pad0.len() - 7]);
        }
    }
    assert(line[k] == ':');
    lemma_colon_index(line, k);
    assert(line.take(k) =~= name);
    assert(line.skip(k + 1) =~= value);
    lemma_trimmed_between(pad0, field, pad1);
    lemma_trimmed_between(pad2, url, pad3);
}

/// A line without a colon declares nothing.
pub proof fn lemma_line_without_colon(line: Seq<char>)
    requires
        !line.contains(':'),
    ensures
        sitemap_value(line) is None,
{
    assert forall|j: int| 0 <= j < line.len() implies line[j] != ':' by {
        if line[j] == ':' {
            assert(line.contains(':'));
        }
    }
    lemma_colon_index(line, line.len() as int);
}

/// Blanks around a text that neither starts nor ends with one are trimmed
/// away, and nothing else is.
pub proof fn lemma_trimmed_between(before: Seq<char>, mid: Seq<char>, after: Seq<char>)
    requires
        all_blank(before),
        all_blank(after),
        mid.len() > 0,
        !is_blank(mid[0]),
        !is_blank(mid.last()),
    ensures
        trimmed(before + mid + after) == mid,
{
    assert(before + mid + after =~= before + (mid + after));
    assert((mid + after)[0] == mid[0]);
    lemma_trim_start_blanks(before, mid + after);
    lemma_trim_end_blanks(mid, after);
}

proof fn lemma_trim_end_blanks(rest: Seq<char>, pad: Seq<char>)
    requires
        forall|i: int| 0 <= i < pad.len() ==> is_blank(#[trigger] pad[i]),
        rest.len() > 0,
        !is_blank(rest.last()),
    ensures
        trim_end(rest + pad) == rest,
    decreases pad.len(),
{
    if pad.len() == 0 {
        assert(rest + pad =~= rest);
    } else {
        assert((rest + pad).drop_last() =~= rest + pad.drop_last());
        assert(is_blank(pad.last()));
        assert forall|i: int| 0 <= i < pad.drop_last().len() implies is_blank(#[trigger] pad.drop_last()[i]) by {
            assert(pad.drop_last()[i] == pad[i]);
        }
        lemma_trim_end_blanks(rest, pad.drop_last());
    }
}

proof fn lemma_trim_start_blanks(pad: Seq<char>, rest: Seq<char>)
    requires
        forall|i: int| 0 <= i < pad.len() ==> is_blank(#[trigger] pad[i]),
        rest.len() > 0,
        !is_blank(rest[0]),
    ensures
        trim_start(pad + rest) == rest,
    decreases pad.len(),
{
    if pad.len() == 0 {
        assert(pad + rest =~= rest);
    } else {
        assert((pad + rest).drop_first() =~= pad.drop_first() + rest);
        assert(is_blank(pad[0]));
        assert forall|i: int| 0 <= i < pad.drop_first().len() implies is_blank(#[trigger] pad.drop_first()[i]) by {
            assert(pad.drop_first()[i] == pad[i + 1]);
        }
        lemma_trim_start_blanks(pad.drop_first(), rest);
    }
}

fn is_blank_char(c: char) -> (res: bool)
    ensures
        res == is_blank(c),
{
    c == ' ' || c == '\t' || c == '\r'
}

/// The bounds of `v[lo..hi]` with the blanks at both ends left out.
fn trim_bounds(v: &Vec<char>, lo: usize, hi: usize) -> (res: (usize, usize))
    requires
        lo <= hi <= v@.len(),
    ensures
        lo <= res.0 <= res.1 <= hi,
        v@.subrange(res.0 as int, res.1 as int) == trimmed(v@.subrange(lo as int, hi as int)),
{
    let mut a: usize = lo;
    while a < hi && is_blank_char(v[a])
        invariant
            lo <= a <= hi,
            hi <= v@.len(),
            trim_start(v@.subrange(lo as int, hi as int)) == trim_start(v@.subrange(a as int, hi as int)),
        decreases hi - a,
    {
        assert(v@.subrange(a as int, hi as int).drop_first() =~= v@.subrange(a + 1, hi as int));
        a = a + 1;
    }
    assert(trim_start(v@.subrange(a as int, hi as int)) == v@.subrange(a as int, hi as int));
    let mut b: usize = hi;
    while b > a && is_blank_char(v[b - 1])
        invariant
            a <= b <= hi,
            hi <= v@.len(),
            trim_end(v@.subrange(a as int, hi as int)) == trim_end(v@.subrange(a as int, b as int)),
        decreases b - a,
    {
        assert(v@.subrange(a as int, b as int).drop_last() =~= v@.subrange(a as int, b - 1));
        b = b - 1;
    }
    assert(trim_end(v@.subrange(a as int, b as int)) == v@.subrange(a as int, b as int));
    (a, b)
}

proof fn lemma_colon_index(s: Seq<char>, k: int)
    requires
        0 <= k <= s.len(),
        forall|j: int| 0 <= j < k ==> s[j] != ':',
        k == s.len() || s[k] == ':',
    ensures
        colon_index(s) == if k < s.len() { Some(k) } else { None::<int> },
    decreases s.len(),
{
    if s.len() > 0 && k > 0 {
        lemma_colon_index(s.drop_first(), k - 1);
    }
}

/// Whether `v[a..b]` is `sitemap` in any mix of upper and lower case.
fn is_sitemap_name(v: &Vec<char>, a: usize, b: usize) -> (res: bool)
    requires
        a <= b <= v@.len(),
    ensures
        res == is_sitemap_field(v@.subrange(a as int, b as int)),
{
    let ghost name = v@.subrange(a as int, b as int);
    let ghost lowered = name.map_values(|c: char| ascii_lower(c));
    if b - a != 7 {
        assert(lowered.len() != sitemap_field().len());
        return false;
    }
    proof {
        reveal_strlit("sitemap");
    }
    let word = chars_of("sitemap");
    assert(word@ =~= sitemap_field());
    let mut i: usize = 0;
    while i < 7
        invariant
            i <= 7,
            b - a == 7,
            b <= v@.len(),
            word@ == sitemap_field(),
            name == v@.subrange(a as int, b as int),
            lowered == name.map_values(|c: char| ascii_lower(c)),
            forall|j: int| 0 <= j < i ==> lowered[j] == sitemap_field()[j],
        decreases 7 - i,
    {
        let l = lower(v[a + i]);
        assert(lowered[i as int] == l);
        if l != word[i] {
            assert(lowered[i as int] != sitemap_field()[i as int]);
            return false;
        }
        i = i + 1;
    }
    assert(lowered =~= sitemap_field());
    true
}

/// The sitemap that one `robots.txt` line declares, if any.
fn line_sitemap(line: &Vec<char>) -> (res: Option<String>)
    ensures
        match res {
            Some(v) => sitemap_value(line@) == Some(v@),
            None => sitemap_value(line@) is None,
        },
{
    let mut k: usize = 0;
    while k < line.len() && line[k] != ':'
        invariant
            k <= line@.len(),
            forall|j: int| 0 <= j < k ==> line@[j] != ':',
        decreases line.len() - k,
    {
        k = k + 1;
    }
    proof {
        lemma_colon_index(line@, k as int);
    }
    if k == line.len() {
        return None;
    }
    let (a, b) = trim_bounds(line, 0, k);
    let (c, d) = trim_bounds(line, k + 1, line.len());
    assert(line@.take(k as int) =~= line@.subrange(0, k as int));
    assert(line@.skip(k + 1) =~= line@.subrange(k + 1, line@.len() as int));
    if !is_sitemap_name(line, a, b) || c == d {
        return None;
    }
    let mut out = String::new();
    let mut i: usize = c;
    while i < d
        invariant
            c <= i <= d,
            d <= line@.len(),
            out@ == line@.subrange(c as int, i as int),
        decreases d - i,
    {
        push_char(&mut out, line[i]);
        i = i + 1;
        assert(out@ =~= line@.subrange(c as int, i as int));
    }
    Some(out)
}

/// The sitemaps that the `robots.txt` text `text` declares in its
/// `Sitemap:` lines, in order.
pub fn robots_sitemaps(text: &str) -> (res: Vec<String>)
    ensures
        strings_view(res@) == declared_sitemaps(text@),
{
    let chars = chars_of(text);
    let mut out: Vec<String> = Vec::new();
    let mut line: Vec<char> = Vec::new();
    let mut i: usize = 0;
    assert(chars@.take(0) =~= Seq::<char>::empty());
    assert(strings_view(out@) =~= Seq::<Seq<char>>::empty());
    while i < chars.len()
        invariant
            i <= chars@.len(),
            chars@ == text@,
            split_lines(chars@.take(i as int)).len() >= 1,
            line@ == split_lines(chars@.take(i as int)).last(),
            strings_view(out@) == sitemap_values(split_lines(chars@.take(i as int)).drop_last()),
        decreases chars.len() - i,
    {
        let c = chars[i];
        let ghost prefix = chars@.take(i as int);
        let ghost lines = split_lines(prefix);
        let ghost next = chars@.take(i + 1);
        assert(next.drop_last() =~= prefix);
        assert(next.last() == c);
        if c == '\n' {
            let found = line_sitemap(&line);
            let ghost before = out@;
            match found {
                Some(v) => {
                    out.push(v);
                    assert(strings_view(out@) =~= strings_view(before).push(v@));
                },
                None => {},
            }
            assert(split_lines(next) == lines.push(Seq::<char>::empty()));
            assert(split_lines(next).drop_last() =~= lines);
            line = Vec::new();
        } else {
            line.push(c);
            assert(split_lines(next) == lines.update(lines.len() - 1, lines.last().push(c)));
            assert(split_lines(next).drop_last() =~= lines.drop_last());
        }
        i = i + 1;
    }
    assert(chars@.take(chars@.len() as int) =~= chars@);
    let ghost lines = split_lines(chars@);
    let found = line_sitemap(&line);
    let ghost before = out@;
    match found {
        Some(v) => {
            out.push(v);
            assert(strings_view(out@) =~= strings_view(before).push(v@));
        },
        None => {},
    }
    assert(lines =~= lines.drop_last().push(lines.last()));
    out
}

} // verus!
