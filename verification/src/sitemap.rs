//! Reading XML sitemaps and sitemap indexes.
//!
//! A document is a sitemap when its root element is `<urlset>` (a list of
//! page locations) or `<sitemapindex>` (a list of further sitemaps). Every
//! `<loc>` element contributes one location; its text may arrive in several
//! pieces (text and references such as `&amp;`), which are joined.
use vstd::prelude::*;
use vstd::string::StringExecFns;
use vstd::utf8::{decode_utf8, valid_utf8};

use crate::gzip::{gunzip, gunzipped};
use crate::text::{bytes_equal, push_char, utf8_text};
use crate::xml::{
    is_char_reference, open_cursor, predefined_entity, read_token, resolve_char_ref,
    resolve_xml_entity, unescape, xml_char_reference, xml_token_at, xml_unescaped, XmlToken,
    XmlTokenView,
};

verus! {

/// What a sitemap document lists.
#[derive(Debug)]
pub enum SitemapKind {
    /// A sitemap index: the locations of further sitemaps.
    Index(Vec<String>),
    /// A sitemap: the locations of pages.
    UrlSet(Vec<String>),
}

/// A sitemap together with the number of `<xhtml:link>` alternates it holds.
#[derive(Debug)]
pub struct ParsedSitemap {
    /// What the document lists.
    pub kind: SitemapKind,
    /// The `<xhtml:link>` elements below the root.
    pub xhtml_links: usize,
}

/// Why a document is not read as a sitemap.
#[derive(Debug)]
pub enum SitemapError {
    /// The XML reader (or the resolution of a character reference) failed.
    Xml(quick_xml::Error),
    /// Text or a reference inside `<loc>` is not valid UTF-8.
    InvalidText,
    /// An escape inside `<loc>` text could not be resolved.
    Escape(quick_xml::escape::EscapeError),
    /// The root element is neither `<urlset>` nor `<sitemapindex>`; its local name.
    NotASitemap(Vec<u8>),
    /// The document holds no element at all.
    Empty,
}

/// The value of a [`SitemapKind`]: the locations as texts.
pub enum SitemapKindView {
    Index(Seq<Seq<char>>),
    UrlSet(Seq<Seq<char>>),
}

/// The value of a [`ParsedSitemap`].
pub struct ParsedSitemapView {
    pub kind: SitemapKindView,
    pub xhtml_links: nat,
}

/// The value of a [`SitemapError`]: which failure, and the root's name.
pub enum SitemapFailure {
    Xml,
    InvalidText,
    Escape,
    NotASitemap(Seq<u8>),
    Empty,
}

/// The texts of a sequence of strings.
pub open spec fn strings_view(v: Seq<String>) -> Seq<Seq<char>> {
    v.map_values(|s: String| s@)
}

impl View for SitemapKind {
    type V = SitemapKindView;

    open spec fn view(&self) -> SitemapKindView {
        match self {
            SitemapKind::Index(l) => SitemapKindView::Index(strings_view(l@)),
            SitemapKind::UrlSet(l) => SitemapKindView::UrlSet(strings_view(l@)),
        }
    }
}

impl View for ParsedSitemap {
    type V = ParsedSitemapView;

    open spec fn view(&self) -> ParsedSitemapView {
        ParsedSitemapView { kind: self.kind@, xhtml_links: self.xhtml_links as nat }
    }
}

impl View for SitemapError {
    type V = SitemapFailure;

    open spec fn view(&self) -> SitemapFailure {
        match self {
            SitemapError::Xml(_) => SitemapFailure::Xml,
            SitemapError::InvalidText => SitemapFailure::InvalidText,
            SitemapError::Escape(_) => SitemapFailure::Escape,
            SitemapError::NotASitemap(n) => SitemapFailure::NotASitemap(n@),
            SitemapError::Empty => SitemapFailure::Empty,
        }
    }
}

/// The outcome of reading a document, as values.
pub open spec fn outcome_view(r: Result<ParsedSitemap, SitemapError>) -> Result<ParsedSitemapView, SitemapFailure> {
    match r {
        Ok(p) => Ok(p@),
        Err(e) => Err(e@),
    }
}

/// The outcome of reading a document, without the link count.
pub open spec fn kind_outcome(r: Result<ParsedSitemapView, SitemapFailure>) -> Result<SitemapKindView, SitemapFailure> {
    match r {
        Ok(p) => Ok(p.kind),
        Err(e) => Err(e),
    }
}

/// The outcome of `parse`, as values.
pub open spec fn kind_view(r: Result<SitemapKind, SitemapError>) -> Result<SitemapKindView, SitemapFailure> {
    match r {
        Ok(k) => Ok(k@),
        Err(e) => Err(e@),
    }
}

// ---------------------------------------------------------------------------
// Names

/// `loc`
pub open spec fn loc_name() -> Seq<u8> {
    seq![108u8, 111u8, 99u8]
}

/// `urlset`
pub open spec fn urlset_name() -> Seq<u8> {
    seq![117u8, 114u8, 108u8, 115u8, 101u8, 116u8]
}

/// `sitemapindex`
pub open spec fn sitemapindex_name() -> Seq<u8> {
    seq![115u8, 105u8, 116u8, 101u8, 109u8, 97u8, 112u8, 105u8, 110u8, 100u8, 101u8, 120u8]
}

/// `xhtml:link`
pub open spec fn xhtml_link_name() -> Seq<u8> {
    seq![120u8, 104u8, 116u8, 109u8, 108u8, 58u8, 108u8, 105u8, 110u8, 107u8]
}

/// What follows the first `:` of a qualified name, if it has one.
pub open spec fn after_first_colon(q: Seq<u8>) -> Option<Seq<u8>>
    decreases q.len(),
{
    if q.len() == 0 {
        None
    } else if q[0] == 58u8 {
        Some(q.drop_first())
    } else {
        after_first_colon(q.drop_first())
    }
}

/// The local part of a qualified name: everything up to and including the
/// first `:` removed.
pub open spec fn local_name(q: Seq<u8>) -> Seq<u8> {
    match after_first_colon(q) {
        Some(rest) => rest,
        None => q,
    }
}

/// What a root element with local name `name` makes of the document:
/// an index (`true`), a sitemap (`false`), or no sitemap at all.
pub open spec fn root_kind(name: Seq<u8>) -> Result<bool, SitemapFailure> {
    if name == sitemapindex_name() {
        Ok(true)
    } else if name == urlset_name() {
        Ok(false)
    } else {
        Err(SitemapFailure::NotASitemap(name))
    }
}

fn loc_literal() -> (v: Vec<u8>)
    ensures
        v@ == loc_name(),
{
    let v = vec![108u8, 111u8, 99u8];
    assert(v@ =~= loc_name());
    v
}

fn urlset_literal() -> (v: Vec<u8>)
    ensures
        v@ == urlset_name(),
{
    let v = vec![117u8, 114u8, 108u8, 115u8, 101u8, 116u8];
    assert(v@ =~= urlset_name());
    v
}

fn sitemapindex_literal() -> (v: Vec<u8>)
    ensures
        v@ == sitemapindex_name(),
{
    let v = vec![115u8, 105u8, 116u8, 101u8, 109u8, 97u8, 112u8, 105u8, 110u8, 100u8, 101u8, 120u8];
    assert(v@ =~= sitemapindex_name());
    v
}

fn xhtml_link_literal() -> (v: Vec<u8>)
    ensures
        v@ == xhtml_link_name(),
{
    let v = vec![120u8, 104u8, 116u8, 109u8, 108u8, 58u8, 108u8, 105u8, 110u8, 107u8];
    assert(v@ =~= xhtml_link_name());
    v
}

/// Where the local part of the qualified name `q` begins.
fn local_name_start(q: &[u8]) -> (start: usize)
    ensures
        start <= q@.len(),
        q@.subrange(start as int, q@.len() as int) == local_name(q@),
{
    let mut i: usize = 0;
    assert(q@.subrange(0, q@.len() as int) =~= q@);
    while i < q.len()
        invariant
            i <= q@.len(),
            after_first_colon(q@) == after_first_colon(q@.subrange(i as int, q@.len() as int)),
        decreases q.len() - i,
    {
        let ghost rest = q@.subrange(i as int, q@.len() as int);
        assert(rest.drop_first() =~= q@.subrange(i + 1, q@.len() as int));
        if q[i] == 58u8 {
            return i + 1;
        }
        i = i + 1;
    }
    assert(q@.subrange(i as int, q@.len() as int).len() == 0);
    assert(q@.subrange(0, q@.len() as int) =~= q@);
    0
}

/// Classifies a root element by its local name: `Ok(true)` for
/// `<sitemapindex>`, `Ok(false)` for `<urlset>`, and an error naming the
/// element otherwise.
pub fn classify_root(name: &[u8]) -> (res: Result<bool, SitemapError>)
    ensures
        match res {
            Ok(b) => root_kind(name@) == Ok::<bool, SitemapFailure>(b),
            Err(e) => root_kind(name@) == Err::<bool, SitemapFailure>(e@),
        },
{
    if bytes_equal(name, sitemapindex_literal().as_slice()) {
        Ok(true)
    } else if bytes_equal(name, urlset_literal().as_slice()) {
        Ok(false)
    } else {
        Err(SitemapError::NotASitemap(vstd::slice::slice_to_vec(name)))
    }
}

// ---------------------------------------------------------------------------
// The scan over tokens

/// The state of a scan: the root's kind once seen, whether a `<loc>` is
/// open, the text gathered for it, the locations completed, and the number
/// of `<xhtml:link>` elements met.
pub struct ScanView {
    pub root: Option<bool>,
    pub in_loc: bool,
    pub current: Seq<char>,
    pub locs: Seq<Seq<char>>,
    pub links: nat,
}

/// A scan before any token.
pub open spec fn scan_start() -> ScanView {
    ScanView { root: None, in_loc: false, current: Seq::empty(), locs: Seq::empty(), links: 0 }
}

/// What one token does to a scan.
pub open spec fn scan_step(s: ScanView, t: XmlTokenView) -> Result<ScanView, SitemapFailure> {
    match t {
        XmlTokenView::Start(q) => match s.root {
            None => match root_kind(local_name(q)) {
                Ok(b) => Ok(ScanView { root: Some(b), ..s }),
                Err(e) => Err(e),
            },
            Some(_) => if local_name(q) == loc_name() {
                Ok(ScanView { in_loc: true, current: Seq::empty(), ..s })
            } else if q == xhtml_link_name() {
                Ok(ScanView { links: s.links + 1, ..s })
            } else {
                Ok(s)
            },
        },
        XmlTokenView::Empty(q) => match s.root {
            None => match root_kind(local_name(q)) {
                Ok(b) => Ok(ScanView { root: Some(b), ..s }),
                Err(e) => Err(e),
            },
            Some(_) => if q == xhtml_link_name() {
                Ok(ScanView { links: s.links + 1, ..s })
            } else {
                Ok(s)
            },
        },
        XmlTokenView::End(q) => if local_name(q) == loc_name() && s.in_loc {
            Ok(ScanView { in_loc: false, current: Seq::empty(), locs: s.locs.push(s.current), ..s })
        } else {
            Ok(s)
        },
        XmlTokenView::Text(raw) => if !s.in_loc {
            Ok(s)
        } else if !valid_utf8(raw) {
            Err(SitemapFailure::InvalidText)
        } else {
            match xml_unescaped(decode_utf8(raw)) {
                Some(u) => Ok(ScanView { current: s.current + u, ..s }),
                None => Err(SitemapFailure::Escape),
            }
        },
        XmlTokenView::Reference(raw) => if !s.in_loc {
            Ok(s)
        } else if !valid_utf8(raw) {
            Err(SitemapFailure::InvalidText)
        } else if is_char_reference(decode_utf8(raw)) {
            match xml_char_reference(decode_utf8(raw)) {
                Some(c) => Ok(ScanView { current: s.current.push(c), ..s }),
                None => Err(SitemapFailure::Xml),
            }
        } else {
            match predefined_entity(decode_utf8(raw)) {
                Some(v) => Ok(ScanView { current: s.current + v, ..s }),
                None => Ok(s),
            }
        },
        XmlTokenView::Other => Ok(s),
        XmlTokenView::Eof => Ok(s),
    }
}

/// What a finished scan makes of the document.
pub open spec fn scan_finish(s: ScanView) -> Result<ParsedSitemapView, SitemapFailure> {
    match s.root {
        Some(true) => Ok(ParsedSitemapView { kind: SitemapKindView::Index(s.locs), xhtml_links: s.links }),
        Some(false) => Ok(ParsedSitemapView { kind: SitemapKindView::UrlSet(s.locs), xhtml_links: s.links }),
        None => Err(SitemapFailure::Empty),
    }
}

/// Scanning a sequence of tokens: up to the first `Eof` (or the end of the
/// sequence), stopping at the first error.
pub open spec fn scan_tokens(s: ScanView, toks: Seq<XmlTokenView>) -> Result<ParsedSitemapView, SitemapFailure>
    decreases toks.len(),
{
    if toks.len() == 0 {
        scan_finish(s)
    } else if toks[0] is Eof {
        scan_finish(s)
    } else {
        match scan_step(s, toks[0]) {
            Ok(next) => scan_tokens(next, toks.drop_first()),
            Err(e) => Err(e),
        }
    }
}

/// Scanning the events that quick_xml reads from `input`, from event
/// `position` on, stopping at the end of the document, at the first error, or
/// after the event before `usize::MAX`.
pub open spec fn scan_document(input: Seq<u8>, position: nat, s: ScanView) -> Result<ParsedSitemapView, SitemapFailure>
    decreases usize::MAX - position,
{
    if position >= usize::MAX {
        scan_finish(s)
    } else {
        match xml_token_at(input, position) {
            None => Err(SitemapFailure::Xml),
            Some(t) => if t is Eof {
                scan_finish(s)
            } else {
                match scan_step(s, t) {
                    Ok(next) => scan_document(input, position + 1, next),
                    Err(e) => Err(e),
                }
            },
        }
    }
}

/// The outcome of reading the document `input` as a sitemap.
pub open spec fn sitemap_of(input: Seq<u8>) -> Result<ParsedSitemapView, SitemapFailure> {
    scan_document(input, 0, scan_start())
}

/// The values of a sequence of tokens.
pub open spec fn token_views(toks: Seq<XmlToken>) -> Seq<XmlTokenView> {
    toks.map_values(|t: XmlToken| t@)
}

/// A scan in progress.
struct Scanner {
    root: Option<bool>,
    in_loc: bool,
    current: String,
    locs: Vec<String>,
    links: usize,
}

impl View for Scanner {
    type V = ScanView;

    closed spec fn view(&self) -> ScanView {
        ScanView {
            root: self.root,
            in_loc: self.in_loc,
            current: self.current@,
            locs: strings_view(self.locs@),
            links: self.links as nat,
        }
    }
}

impl Scanner {
    fn new() -> (s: Scanner)
        ensures
            s@ == scan_start(),
    {
        let s = Scanner { root: None, in_loc: false, current: String::new(), locs: Vec::new(), links: 0 };
        assert(strings_view(s.locs@) =~= Seq::<Seq<char>>::empty());
        s
    }

    /// Applies a start tag with qualified name `q`.
    fn feed_start(&mut self, q: &Vec<u8>) -> (res: Result<(), SitemapError>)
        requires
            old(self).links < usize::MAX,
        ensures
            match res {
                Ok(()) => scan_step(old(self)@, XmlTokenView::Start(q@)) == Ok::<ScanView, SitemapFailure>(final(self)@),
                Err(e) => scan_step(old(self)@, XmlTokenView::Start(q@)) == Err::<ScanView, SitemapFailure>(e@),
            },
            final(self).links <= old(self).links + 1,
    {
        let start = local_name_start(q.as_slice());
        let local = vstd::slice::slice_subrange(q.as_slice(), start, q.len());
        if self.root.is_none() {
            let b = classify_root(local)?;
            self.root = Some(b);
        } else if bytes_equal(local, loc_literal().as_slice()) {
            self.in_loc = true;
            self.current = String::new();
        } else if bytes_equal(q.as_slice(), xhtml_link_literal().as_slice()) {
            self.links = self.links + 1;
        }
        Ok(())
    }

    /// Applies a self-closing tag with qualified name `q`.
    fn feed_empty(&mut self, q: &Vec<u8>) -> (res: Result<(), SitemapError>)
        requires
            old(self).links < usize::MAX,
        ensures
            match res {
                Ok(()) => scan_step(old(self)@, XmlTokenView::Empty(q@)) == Ok::<ScanView, SitemapFailure>(final(self)@),
                Err(e) => scan_step(old(self)@, XmlTokenView::Empty(q@)) == Err::<ScanView, SitemapFailure>(e@),
            },
            final(self).links <= old(self).links + 1,
    {
        let start = local_name_start(q.as_slice());
        let local = vstd::slice::slice_subrange(q.as_slice(), start, q.len());
        if self.root.is_none() {
            let b = classify_root(local)?;
            self.root = Some(b);
        } else if bytes_equal(q.as_slice(), xhtml_link_literal().as_slice()) {
            self.links = self.links + 1;
        }
        Ok(())
    }

    /// Applies an end tag with qualified name `q`.
    fn feed_end(&mut self, q: &Vec<u8>)
        ensures
            scan_step(old(self)@, XmlTokenView::End(q@)) == Ok::<ScanView, SitemapFailure>(final(self)@),
            final(self).links == old(self).links,
    {
        let start = local_name_start(q.as_slice());
        let local = vstd::slice::slice_subrange(q.as_slice(), start, q.len());
        if self.in_loc && bytes_equal(local, loc_literal().as_slice()) {
            let mut done = String::new();
            std::mem::swap(&mut done, &mut self.current);
            let ghost old_locs = self.locs@;
            self.locs.push(done);
            assert(strings_view(self.locs@) =~= strings_view(old_locs).push(done@));
            self.in_loc = false;
        }
    }

    /// Applies character data `raw`.
    fn feed_text(&mut self, raw: &Vec<u8>) -> (res: Result<(), SitemapError>)
        ensures
            match res {
                Ok(()) => scan_step(old(self)@, XmlTokenView::Text(raw@)) == Ok::<ScanView, SitemapFailure>(final(self)@),
                Err(e) => scan_step(old(self)@, XmlTokenView::Text(raw@)) == Err::<ScanView, SitemapFailure>(e@),
            },
            final(self).links == old(self).links,
    {
        if self.in_loc {
            match utf8_text(raw.as_slice()) {
                None => Err(SitemapError::InvalidText),
                Some(text) => match unescape(text) {
                    Ok(u) => {
                        self.current.append(u.as_str());
                        Ok(())
                    },
                    Err(e) => Err(SitemapError::Escape(e)),
                },
            }
        } else {
            Ok(())
        }
    }

    /// Applies the reference `raw`.
    fn feed_reference(&mut self, raw: &Vec<u8>) -> (res: Result<(), SitemapError>)
        ensures
            match res {
                Ok(()) => scan_step(old(self)@, XmlTokenView::Reference(raw@)) == Ok::<ScanView, SitemapFailure>(final(self)@),
                Err(e) => scan_step(old(self)@, XmlTokenView::Reference(raw@)) == Err::<ScanView, SitemapFailure>(e@),
            },
            final(self).links == old(self).links,
    {
        if self.in_loc {
            match utf8_text(raw.as_slice()) {
                None => Err(SitemapError::InvalidText),
                Some(name) => match resolve_char_ref(name) {
                    Ok(Some(c)) => {
                        push_char(&mut self.current, c);
                        Ok(())
                    },
                    Ok(None) => {
                        if let Some(v) = resolve_xml_entity(name) {
                            self.current.append(v);
                        }
                        Ok(())
                    },
                    Err(e) => Err(SitemapError::Xml(e)),
                },
            }
        } else {
            Ok(())
        }
    }

    /// Applies one token.
    fn feed(&mut self, token: &XmlToken) -> (res: Result<(), SitemapError>)
        requires
            old(self).links < usize::MAX,
        ensures
            match res {
                Ok(()) => scan_step(old(self)@, token@) == Ok::<ScanView, SitemapFailure>(final(self)@),
                Err(e) => scan_step(old(self)@, token@) == Err::<ScanView, SitemapFailure>(e@),
            },
            final(self).links <= old(self).links + 1,
    {
        match token {
            XmlToken::Start(q) => self.feed_start(q),
            XmlToken::Empty(q) => self.feed_empty(q),
            XmlToken::End(q) => {
                self.feed_end(q);
                Ok(())
            },
            XmlToken::Text(raw) => self.feed_text(raw),
            XmlToken::Reference(raw) => self.feed_reference(raw),
            XmlToken::Other => Ok(()),
            XmlToken::Eof => Ok(()),
        }
    }

    /// The sitemap that the scan has read.
    fn finish(self) -> (res: Result<ParsedSitemap, SitemapError>)
        ensures
            outcome_view(res) == scan_finish(self@),
    {
        match self.root {
            Some(true) => Ok(ParsedSitemap { kind: SitemapKind::Index(self.locs), xhtml_links: self.links }),
            Some(false) => Ok(ParsedSitemap { kind: SitemapKind::UrlSet(self.locs), xhtml_links: self.links }),
            None => Err(SitemapError::Empty),
        }
    }
}

/// Reads a sequence of tokens as a sitemap: up to the first `Eof` token (or
/// the end of the sequence), stopping at the first error.
pub fn parse_tokens(tokens: &[XmlToken]) -> (res: Result<ParsedSitemap, SitemapError>)
    ensures
        outcome_view(res) == scan_tokens(scan_start(), token_views(tokens@)),
{
    let mut scanner = Scanner::new();
    let mut i: usize = 0;
    assert(token_views(tokens@).subrange(0, tokens@.len() as int) =~= token_views(tokens@));
    while i < tokens.len()
        invariant
            i <= tokens@.len(),
            scanner.links <= i,
            scan_tokens(scan_start(), token_views(tokens@))
                == scan_tokens(scanner@, token_views(tokens@).subrange(i as int, tokens@.len() as int)),
        decreases tokens.len() - i,
    {
        let ghost rest = token_views(tokens@).subrange(i as int, tokens@.len() as int);
        assert(rest[0] == tokens@[i as int]@);
        assert(rest.drop_first() =~= token_views(tokens@).subrange(i + 1, tokens@.len() as int));
        if let XmlToken::Eof = &tokens[i] {
            return scanner.finish();
        }
        scanner.feed(&tokens[i])?;
        i = i + 1;
    }
    scanner.finish()
}

/// Reads the document `bytes` as a sitemap, with the number of
/// `<xhtml:link>` alternates in it. The events are read one at a time, up
/// to the end of the document or the first error, and at most
/// `usize::MAX - 1` of them, a count that no document held in memory comes
/// near.
pub fn parse_sitemap(bytes: &[u8]) -> (res: Result<ParsedSitemap, SitemapError>)
    ensures
        outcome_view(res) == sitemap_of(bytes@),
{
    let mut cursor = open_cursor(bytes);
    let mut scanner = Scanner::new();
    let mut position: usize = 0;
    while position < usize::MAX
        invariant
            cursor@ == (bytes@, position as nat),
            scanner.links <= position,
            sitemap_of(bytes@) == scan_document(bytes@, position as nat, scanner@),
        decreases usize::MAX - position,
    {
        let token = match read_token(&mut cursor) {
            Ok(t) => t,
            Err(e) => return Err(SitemapError::Xml(e)),
        };
        if let XmlToken::Eof = token {
            return scanner.finish();
        }
        scanner.feed(&token)?;
        position = position + 1;
    }
    scanner.finish()
}

/// Reads the document `bytes` as a sitemap: what it lists, or why it is none.
pub fn parse(bytes: &[u8]) -> (res: Result<SitemapKind, SitemapError>)
    ensures
        kind_view(res) == kind_outcome(sitemap_of(bytes@)),
{
    match parse_sitemap(bytes) {
        Ok(p) => Ok(p.kind),
        Err(e) => Err(e),
    }
}

// ---------------------------------------------------------------------------
// What holds of every scan

/// Whether a token is an element tag that can be a root (start or self-closing).
pub open spec fn is_element(t: XmlTokenView) -> bool {
    t is Start || t is Empty
}

/// The qualified name of an element tag.
pub open spec fn element_name(t: XmlTokenView) -> Seq<u8> {
    match t {
        XmlTokenView::Start(q) => q,
        XmlTokenView::Empty(q) => q,
        _ => Seq::empty(),
    }
}

/// Before the root element, with no `<loc>` open, anything but an element
/// leaves a scan as it is.
proof fn lemma_step_before_root(s: ScanView, t: XmlTokenView)
    requires
        s.root is None,
        !s.in_loc,
        !is_element(t),
    ensures
        scan_step(s, t) == Ok::<ScanView, SitemapFailure>(s),
{
}

/// Once the root is known, no token changes it.
proof fn lemma_step_keeps_root(s: ScanView, t: XmlTokenView)
    requires
        s.root is Some,
    ensures
        scan_step(s, t) matches Ok(next) ==> next.root == s.root,
{
}

/// A scan whose root is known ends in an error or in a sitemap of the
/// kind that the root says.
proof fn lemma_scan_after_root(s: ScanView, toks: Seq<XmlTokenView>)
    requires
        s.root is Some,
    ensures
        scan_tokens(s, toks) matches Ok(p) ==> (p.kind is Index <==> s.root == Some(true)),
    decreases toks.len(),
{
    if toks.len() > 0 && !(toks[0] is Eof) {
        lemma_step_keeps_root(s, toks[0]);
        if let Ok(next) = scan_step(s, toks[0]) {
            lemma_scan_after_root(next, toks.drop_first());
        }
    }
}

/// A scan that meets no element before its end reads nothing.
proof fn lemma_scan_without_elements(s: ScanView, toks: Seq<XmlTokenView>)
    requires
        s.root is None,
        !s.in_loc,
        forall|i: int| 0 <= i < toks.len() ==> !is_element(#[trigger] toks[i]),
    ensures
        scan_tokens(s, toks) == Err::<ParsedSitemapView, SitemapFailure>(SitemapFailure::Empty),
    decreases toks.len(),
{
    if toks.len() > 0 && !(toks[0] is Eof) {
        lemma_step_before_root(s, toks[0]);
        assert forall|i: int| 0 <= i < toks.drop_first().len() implies !is_element(#[trigger] toks.drop_first()[i]) by {
            assert(toks.drop_first()[i] == toks[i + 1]);
        }
        lemma_scan_without_elements(s, toks.drop_first());
    }
}

/// A document without any element (an empty one, or one that is no XML
/// markup at all) is no sitemap.
pub proof fn lemma_no_element_no_sitemap(toks: Seq<XmlTokenView>)
    requires
        forall|i: int| 0 <= i < toks.len() ==> !is_element(#[trigger] toks[i]),
    ensures
        scan_tokens(scan_start(), toks) == Err::<ParsedSitemapView, SitemapFailure>(SitemapFailure::Empty),
{
    lemma_scan_without_elements(scan_start(), toks);
}

/// The root element decides: a root other than `<urlset>` or
/// `<sitemapindex>` makes the document no sitemap (whatever follows), and a
/// document that is read as a sitemap is an index exactly when its root is
/// `<sitemapindex>`.
pub proof fn lemma_root_decides(toks: Seq<XmlTokenView>, k: int)
    requires
        0 <= k < toks.len(),
        is_element(toks[k]),
        forall|i: int| 0 <= i < k ==> !is_element(#[trigger] toks[i]) && !(toks[i] is Eof),
    ensures
        match root_kind(local_name(element_name(toks[k]))) {
            Err(e) => scan_tokens(scan_start(), toks) == Err::<ParsedSitemapView, SitemapFailure>(e),
            Ok(is_index) => scan_tokens(scan_start(), toks) matches Ok(p) ==> (p.kind is Index <==> is_index),
        },
    decreases k,
{
    if k == 0 {
        let t = toks[0];
        assert(scan_step(scan_start(), t) == match root_kind(local_name(element_name(t))) {
            Ok(b) => Ok(ScanView { root: Some(b), ..scan_start() }),
            Err(e) => Err(e),
        });
        if let Ok(next) = scan_step(scan_start(), t) {
            lemma_scan_after_root(next, toks.drop_first());
        }
    } else {
        lemma_step_before_root(scan_start(), toks[0]);
        let rest = toks.drop_first();
        assert forall|i: int| 0 <= i < k - 1 implies !is_element(#[trigger] rest[i]) && !(rest[i] is Eof) by {
            assert(rest[i] == toks[i + 1]);
        }
        lemma_root_decides(rest, k - 1);
    }
}

/// `url`
pub open spec fn url_name() -> Seq<u8> {
    seq![117u8, 114u8, 108u8]
}

/// The events of `<urlset><url><loc>TEXT</loc></url></urlset>`, where the
/// text event holds the bytes `text`.
pub open spec fn one_loc_urlset(text: Seq<u8>) -> Seq<XmlTokenView> {
    seq![
        XmlTokenView::Start(urlset_name()),
        XmlTokenView::Start(url_name()),
        XmlTokenView::Start(loc_name()),
        XmlTokenView::Text(text),
        XmlTokenView::End(loc_name()),
        XmlTokenView::End(url_name()),
        XmlTokenView::End(urlset_name()),
        XmlTokenView::Eof,
    ]
}

/// Text inside an open `<loc>` is added to the location being read exactly
/// as it unescapes, character for character, after what was read before;
/// nothing else about the scan changes.
pub proof fn lemma_loc_text_appended(s: ScanView, raw: Seq<u8>, u: Seq<char>)
    requires
        s.in_loc,
        valid_utf8(raw),
        xml_unescaped(decode_utf8(raw)) == Some(u),
    ensures
        scan_step(s, XmlTokenView::Text(raw)) matches Ok(n) && {
            &&& n.current == s.current + u
            &&& n.current.len() == s.current.len() + u.len()
            &&& n.current.subrange(0, s.current.len() as int) == s.current
            &&& n.current.subrange(s.current.len() as int, n.current.len() as int) == u
            &&& n.in_loc && n.root == s.root && n.locs == s.locs && n.links == s.links
        },
{
    let n = ScanView { current: s.current + u, ..s };
    assert(n.current.subrange(0, s.current.len() as int) =~= s.current);
    assert(n.current.subrange(s.current.len() as int, n.current.len() as int) =~= u);
}

/// Once the root is read, a `<loc>` element holding one text adds exactly
/// one location, after those before it: the text as it unescapes. Nothing
/// else of the scan changes.
pub proof fn lemma_loc_element_appends(s: ScanView, raw: Seq<u8>, u: Seq<char>)
    requires
        s.root is Some,
        !s.in_loc,
        valid_utf8(raw),
        xml_unescaped(decode_utf8(raw)) == Some(u),
    ensures
        scan_step(s, XmlTokenView::Start(loc_name())) matches Ok(s1) && scan_step(s1, XmlTokenView::Text(raw)) matches Ok(s2)
            && scan_step(s2, XmlTokenView::End(loc_name())) == Ok::<ScanView, SitemapFailure>(
            ScanView { in_loc: false, current: Seq::empty(), locs: s.locs.push(u), ..s },
        ),
{
    lemma_plain_names();
    assert(Seq::<char>::empty() + u =~= u);
}

/// Inside an open `<loc>`, a character reference adds exactly the character
/// it stands for, one of the five predefined entities exactly its text, and
/// any other entity nothing.
pub proof fn lemma_loc_reference_appended(s: ScanView, raw: Seq<u8>)
    requires
        s.in_loc,
        valid_utf8(raw),
    ensures
        is_char_reference(decode_utf8(raw)) ==> match xml_char_reference(decode_utf8(raw)) {
            Some(c) => scan_step(s, XmlTokenView::Reference(raw)) == Ok::<ScanView, SitemapFailure>(
                ScanView { current: s.current.push(c), ..s },
            ),
            None => scan_step(s, XmlTokenView::Reference(raw)) is Err,
        },
        !is_char_reference(decode_utf8(raw)) ==> scan_step(s, XmlTokenView::Reference(raw))
            == Ok::<ScanView, SitemapFailure>(ScanView {
                current: s.current + match predefined_entity(decode_utf8(raw)) {
                    Some(v) => v,
                    None => Seq::<char>::empty(),
                },
                ..s
            }),
{
    assert(s.current + Seq::<char>::empty() =~= s.current);
}

proof fn lemma_plain_names()
    ensures
        local_name(urlset_name()) == urlset_name(),
        local_name(url_name()) == url_name(),
        local_name(loc_name()) == loc_name(),
        url_name() != loc_name(),
        url_name() != xhtml_link_name(),
        loc_name() != xhtml_link_name(),
        urlset_name() != loc_name(),
        urlset_name() != sitemapindex_name(),
{
    reveal_with_fuel(after_first_colon, 7);
    assert(url_name()[0] != loc_name()[0]);
    assert(url_name().len() != xhtml_link_name().len());
    assert(loc_name().len() != xhtml_link_name().len());
    assert(urlset_name().len() != loc_name().len());
    assert(urlset_name().len() != sitemapindex_name().len());
}

/// A `<urlset>` with one `<loc>` whose content is one text lists exactly
/// one location: that text as it unescapes, nothing added, dropped or
/// changed in it.
pub proof fn lemma_one_loc_urlset(raw: Seq<u8>, u: Seq<char>)
    requires
        valid_utf8(raw),
        xml_unescaped(decode_utf8(raw)) == Some(u),
    ensures
        scan_tokens(scan_start(), one_loc_urlset(raw)) == Ok::<ParsedSitemapView, SitemapFailure>(
            ParsedSitemapView { kind: SitemapKindView::UrlSet(seq![u]), xhtml_links: 0 },
        ),
{
    lemma_plain_names();
    let toks = one_loc_urlset(raw);
    let s0 = scan_start();
    let s1 = ScanView { root: Some(false), ..s0 };
    let s3 = ScanView { in_loc: true, current: Seq::empty(), ..s1 };
    let s4 = ScanView { current: Seq::<char>::empty() + u, ..s3 };
    let s5 = ScanView { in_loc: false, current: Seq::empty(), locs: s4.locs.push(s4.current), ..s4 };
    assert(Seq::<char>::empty() + u =~= u);
    assert(s5.locs =~= seq![u]);
    assert(scan_step(s0, toks[0]) == Ok::<ScanView, SitemapFailure>(s1));
    assert(scan_step(s1, toks[1]) == Ok::<ScanView, SitemapFailure>(s1));
    assert(scan_step(s1, toks[2]) == Ok::<ScanView, SitemapFailure>(s3));
    assert(scan_step(s3, toks[3]) == Ok::<ScanView, SitemapFailure>(s4));
    assert(scan_step(s4, toks[4]) == Ok::<ScanView, SitemapFailure>(s5));
    assert(scan_step(s5, toks[5]) == Ok::<ScanView, SitemapFailure>(s5));
    assert(scan_step(s5, toks[6]) == Ok::<ScanView, SitemapFailure>(s5));
    let t1 = toks.drop_first();
    let t2 = t1.drop_first();
    let t3 = t2.drop_first();
    let t4 = t3.drop_first();
    let t5 = t4.drop_first();
    let t6 = t5.drop_first();
    let t7 = t6.drop_first();
    assert(t7[0] is Eof);
    assert(scan_tokens(s5, t7) == scan_finish(s5));
    assert(scan_tokens(s5, t6) == scan_tokens(s5, t7));
    assert(scan_tokens(s5, t5) == scan_tokens(s5, t6));
    assert(scan_tokens(s4, t4) == scan_tokens(s5, t5));
    assert(scan_tokens(s3, t3) == scan_tokens(s4, t4));
    assert(scan_tokens(s1, t2) == scan_tokens(s3, t3));
    assert(scan_tokens(s1, t1) == scan_tokens(s1, t2));
    assert(scan_tokens(s0, toks) == scan_tokens(s1, t1));
}

/// A document whose events are those of
/// `<urlset><url><loc>TEXT</loc></url></urlset>` reads as a sitemap whose
/// one location is the text as it unescapes: kept as written, case and all,
/// where it holds no escape.
pub proof fn lemma_one_loc_document(input: Seq<u8>, raw: Seq<u8>, u: Seq<char>)
    requires
        valid_utf8(raw),
        xml_unescaped(decode_utf8(raw)) == Some(u),
        forall|i: int| 0 <= i < 8 ==> xml_token_at(input, i as nat) == Some(#[trigger] one_loc_urlset(raw)[i]),
    ensures
        sitemap_of(input) == Ok::<ParsedSitemapView, SitemapFailure>(
            ParsedSitemapView { kind: SitemapKindView::UrlSet(seq![u]), xhtml_links: 0 },
        ),
{
    lemma_one_loc_urlset(raw, u);
    lemma_document_is_its_tokens(input, one_loc_urlset(raw));
}

/// Reading a document is reading the tokens that quick_xml yields for it:
/// where its first events are `toks`, ending with the end of the document,
/// `parse_sitemap` on the document gives what `parse_tokens` gives on them.
pub proof fn lemma_document_is_its_tokens(input: Seq<u8>, toks: Seq<XmlTokenView>)
    requires
        0 < toks.len() < usize::MAX,
        toks.last() is Eof,
        forall|i: int| 0 <= i < toks.len() ==> xml_token_at(input, i as nat) == Some(#[trigger] toks[i]),
    ensures
        sitemap_of(input) == scan_tokens(scan_start(), toks),
{
    lemma_document_from(input, toks, 0, scan_start());
    assert(toks.subrange(0, toks.len() as int) =~= toks);
}

proof fn lemma_document_from(input: Seq<u8>, toks: Seq<XmlTokenView>, pos: nat, s: ScanView)
    requires
        0 < toks.len() < usize::MAX,
        pos < toks.len(),
        toks.last() is Eof,
        forall|i: int| 0 <= i < toks.len() ==> xml_token_at(input, i as nat) == Some(#[trigger] toks[i]),
    ensures
        scan_document(input, pos, s) == scan_tokens(s, toks.subrange(pos as int, toks.len() as int)),
    decreases toks.len() - pos,
{
    let rest = toks.subrange(pos as int, toks.len() as int);
    assert(rest[0] == toks[pos as int]);
    assert(xml_token_at(input, pos) == Some(toks[pos as int]));
    if !(toks[pos as int] is Eof) {
        assert(pos + 1 < toks.len());
        assert(rest.drop_first() =~= toks.subrange(pos + 1 as int, toks.len() as int));
        if let Ok(next) = scan_step(s, toks[pos as int]) {
            lemma_document_from(input, toks, pos + 1, next);
        }
    }
}

// ---------------------------------------------------------------------------
// Compressed sitemaps

/// Whether `bytes` start with the gzip magic number `1f 8b`.
pub open spec fn has_gzip_magic(bytes: Seq<u8>) -> bool {
    bytes.len() >= 2 && bytes[0] == 0x1fu8 && bytes[1] == 0x8bu8
}

/// What `maybe_gunzip` makes of `bytes`, given what decompressing them gives.
pub open spec fn gunzip_choice(bytes: Seq<u8>, decoded: Option<Seq<u8>>) -> Seq<u8> {
    if has_gzip_magic(bytes) {
        match decoded {
            Some(out) => out,
            None => bytes,
        }
    } else {
        bytes
    }
}

/// Picks the data to keep: the decompressed data where `bytes` carry the
/// gzip magic number and decompressing them succeeded, else `bytes`.
pub fn choose_gunzipped(bytes: Vec<u8>, decoded: Option<Vec<u8>>) -> (res: Vec<u8>)
    ensures
        res@ == gunzip_choice(bytes@, match decoded { Some(d) => Some(d@), None => None }),
{
    if bytes.len() >= 2 && bytes[0] == 0x1fu8 && bytes[1] == 0x8bu8 {
        match decoded {
            Some(out) => out,
            None => bytes,
        }
    } else {
        bytes
    }
}

/// Sitemaps are routinely served gzip-compressed regardless of URL
/// extension; detects them by the magic number and decompresses them,
/// handing anything else (or anything that fails to decompress) back as it is.
pub fn maybe_gunzip(bytes: Vec<u8>) -> (res: Vec<u8>)
    ensures
        res@ == gunzip_choice(bytes@, gunzipped(bytes@)),
        !has_gzip_magic(bytes@) ==> res@ == bytes@,
{
    if bytes.len() >= 2 && bytes[0] == 0x1fu8 && bytes[1] == 0x8bu8 {
        let decoded = gunzip(bytes.as_slice());
        choose_gunzipped(bytes, decoded)
    } else {
        bytes
    }
}

// ---------------------------------------------------------------------------
// Files on disk

/// Whether a file named `name` has the extension `xml`: the text after its
/// last `.` is `xml` and something stands before that `.`.
pub open spec fn is_xml_file_name_spec(name: Seq<char>) -> bool {
    name.len() > 4 && name.subrange(name.len() - 4, name.len() as int) == seq!['.', 'x', 'm', 'l']
}

/// Whether a file named `name` is one that the sitemap walks collect: one
/// with the extension `xml`.
pub fn is_xml_file_name(name: &str) -> (res: bool)
    ensures
        res == is_xml_file_name_spec(name@),
{
    let chars = crate::text::chars_of(name);
    let n = chars.len();
    if n > 4 && chars[n - 4] == '.' && chars[n - 3] == 'x' && chars[n - 2] == 'm' && chars[n - 1] == 'l' {
        assert(chars@.subrange(n - 4, n as int) =~= seq!['.', 'x', 'm', 'l']);
        true
    } else {
        assert(!is_xml_file_name_spec(name@)) by {
            if is_xml_file_name_spec(name@) {
                let tail = chars@.subrange(n - 4, n as int);
                assert(tail[0] == chars@[n - 4]);
                assert(tail[1] == chars@[n - 3]);
                assert(tail[2] == chars@[n - 2]);
                assert(tail[3] == chars@[n - 1]);
            }
        }
        false
    }
}

} // verus!
