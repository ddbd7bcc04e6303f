//! Human-readable byte sizes: `512 B`, `1.50 KiB`, `5.00 MiB`, ...
//!
//! A size of 1024 bytes or more is shown in the largest binary unit (up to
//! TiB) that leaves at least 1, with two decimals. The value shown is that
//! of the size converted to a 64-bit float and divided by the unit, rounded
//! to two decimals with ties to even; all of it is computed exactly in
//! integers here.
use vstd::prelude::*;
use vstd::string::StringExecFns;

use crate::sitemap::{ParsedSitemap, SitemapError, SitemapKind};
use crate::text::{decimal, digit_char, push_char, push_decimal};
use crate::xml::{digit_value, numeral_value};

verus! {

broadcast use vstd::string::group_string_axioms;

/// 2^53: below it every integer is a 64-bit float.
pub open spec fn float_exact_limit() -> nat {
    0x20_0000_0000_0000
}

/// The spacing of 64-bit floats around `n`: 1 below 2^53, doubling with
/// every further bit of `n`.
pub open spec fn float_spacing(n: nat) -> nat
    decreases n,
{
    if n < float_exact_limit() {
        1
    } else {
        2 * float_spacing(n / 2)
    }
}

/// `num / den` rounded to the nearest integer, ties to even.
pub open spec fn round_half_even(num: nat, den: nat) -> nat {
    let q = num / den;
    let r = num % den;
    if 2 * r > den || (2 * r == den && q % 2 == 1) {
        q + 1
    } else {
        q
    }
}

/// The value of `n as f64`: `n` rounded to the nearest 64-bit float, ties to
/// even.
pub open spec fn float_value(n: nat) -> nat {
    round_half_even(n, float_spacing(n)) * float_spacing(n)
}

/// 1024^k
pub open spec fn pow1024(k: nat) -> nat
    decreases k,
{
    if k == 0 {
        1
    } else {
        1024 * pow1024((k - 1) as nat)
    }
}

/// The unit that a size of value `v` is shown in, searching from unit `k`:
/// the first unit below which `v` stays under 1024 of it, at most TiB (4).
pub open spec fn size_unit(v: nat, k: nat) -> nat
    decreases 4 - k,
{
    if k >= 4 {
        k
    } else if v >= pow1024(k + 1) {
        size_unit(v, k + 1)
    } else {
        k
    }
}

/// The name of unit `k`.
pub open spec fn unit_name(k: nat) -> Seq<char> {
    if k == 0 {
        seq!['B']
    } else if k == 1 {
        seq!['K', 'i', 'B']
    } else if k == 2 {
        seq!['M', 'i', 'B']
    } else if k == 3 {
        seq!['G', 'i', 'B']
    } else {
        seq!['T', 'i', 'B']
    }
}

/// A number of hundredths, written with two decimals.
pub open spec fn hundredths_text(h: nat) -> Seq<char> {
    decimal(h / 100) + seq!['.', digit_char((h % 100) / 10), digit_char(h % 10)]
}

/// The text that `human_size` gives for `bytes`.
pub open spec fn human_size_text(bytes: nat) -> Seq<char> {
    let v = float_value(bytes);
    let k = size_unit(v, 0);
    if k == 0 {
        decimal(bytes) + seq![' '] + unit_name(0)
    } else {
        hundredths_text(round_half_even(v * 100, pow1024(k))) + seq![' '] + unit_name(k)
    }
}

proof fn lemma_pow1024_values()
    ensures
        pow1024(1) == 1024,
        pow1024(2) == 0x10_0000,
        pow1024(3) == 0x4000_0000,
        pow1024(4) == 0x100_0000_0000,
        pow1024(5) == 0x4_0000_0000_0000,
{
    assert(pow1024(0) == 1);
    assert(pow1024(1) == 1024);
    assert(pow1024(2) == 0x10_0000);
    assert(pow1024(3) == 0x4000_0000);
    assert(pow1024(4) == 0x100_0000_0000);
    assert(pow1024(5) == 0x4_0000_0000_0000);
}

/// `(n / p) / 2 == n / (2 * p)`
proof fn lemma_halve_quotient(n: nat, p: nat)
    requires
        p >= 1,
    ensures
        (n / p) / 2 == n / (2 * p),
{
    vstd::arithmetic::div_mod::lemma_div_denominator(n as int, p as int, 2);
}

/// Below 2^53 a size is its own float value.
proof fn lemma_exact_float(n: nat)
    requires
        n < float_exact_limit(),
    ensures
        float_value(n) == n,
{
    assert(float_spacing(n) == 1);
    assert(n / 1 == n && n % 1 == 0);
}

proof fn lemma_digit_reads_back(d: nat)
    requires
        d < 10,
    ensures
        digit_value(digit_char(d), 10) == Some(d),
{
    let b: u8 = (48 + d) as u8;
    assert(b as nat == 48 + d);
    assert((b as char) as nat == b as nat);
}

/// The decimal numeral of `n` reads back as `n`.
pub proof fn lemma_decimal_reads_back(n: nat)
    ensures
        numeral_value(decimal(n), 10) == Some(n),
    decreases n,
{
    lemma_digit_reads_back(n % 10);
    if n < 10 {
        let one = decimal(n);
        assert(one.drop_last() =~= Seq::<char>::empty());
        assert(numeral_value(Seq::<char>::empty(), 10) == Some(0nat));
    } else {
        lemma_decimal_reads_back(n / 10);
        let d = decimal(n);
        assert(d.drop_last() =~= decimal(n / 10));
        assert(d.last() == digit_char(n % 10));
        assert((n / 10) * 10 + n % 10 == n);
    }
}

/// A number of hundredths written with two decimals reads back as that
/// number: the digits before the point are the whole units, and exactly two
/// digits follow it, the hundredths (a tenths digit of 0 below ten).
pub proof fn lemma_hundredths_read_back(h: nat)
    ensures
        hundredths_text(h).len() >= 4,
        hundredths_text(h)[hundredths_text(h).len() - 3] == '.',
        numeral_value(hundredths_text(h).take(hundredths_text(h).len() - 3), 10) == Some(h / 100),
        numeral_value(hundredths_text(h).skip(hundredths_text(h).len() - 2), 10) == Some(h % 100),
{
    let t = hundredths_text(h);
    let whole = decimal(h / 100);
    crate::names::lemma_decimal_digits(h / 100);
    lemma_decimal_reads_back(h / 100);
    let f = h % 100;
    let d1 = f / 10;
    let d2 = h % 10;
    assert(d2 == f % 10) by (nonlinear_arith)
        requires
            f == h % 100,
            d2 == h % 10,
    ;
    assert(d1 * 10 + d2 == f);
    lemma_digit_reads_back(d1);
    lemma_digit_reads_back(d2);
    assert(t.len() == whole.len() + 3);
    assert(t.take(t.len() - 3) =~= whole);
    let tail = t.skip(t.len() - 2);
    assert(tail =~= seq![digit_char(d1), digit_char(d2)]);
    assert(tail.drop_last() =~= seq![digit_char(d1)]);
    assert(tail.drop_last().drop_last() =~= Seq::<char>::empty());
    assert(numeral_value(Seq::<char>::empty(), 10) == Some(0nat));
    assert(numeral_value(tail.drop_last(), 10) == Some(d1));
}

/// Sizes under 1024 bytes are shown in bytes, as the plain number.
pub proof fn lemma_small_sizes_in_bytes(bytes: nat)
    requires
        bytes < 1024,
    ensures
        human_size_text(bytes) == decimal(bytes) + seq![' ', 'B'],
{
    lemma_exact_float(bytes);
    lemma_pow1024_values();
    assert(size_unit(bytes, 0) == 0);
    assert(decimal(bytes) + seq![' '] + unit_name(0) =~= decimal(bytes) + seq![' ', 'B']);
}

proof fn lemma_unit_search(v: nat, j: nat, k: nat)
    requires
        j <= k <= 4,
        v >= pow1024(k),
        k < 4 ==> v < pow1024(k + 1),
        pow1024(1) == 1024,
        pow1024(2) == 0x10_0000,
        pow1024(3) == 0x4000_0000,
        pow1024(4) == 0x100_0000_0000,
        pow1024(5) == 0x4_0000_0000_0000,
    ensures
        size_unit(v, j) == k,
    decreases k - j,
{
    if j < k {
        assert(v >= pow1024(j + 1));
        lemma_unit_search(v, j + 1, k);
    }
}

/// `m` whole units of 1024^k bytes (1 <= m < 1024) are shown as `m.00` of
/// that unit.
pub proof fn lemma_whole_units(m: nat, k: nat)
    requires
        1 <= k <= 4,
        1 <= m < 1024,
    ensures
        human_size_text(m * pow1024(k)) == decimal(m) + seq!['.', '0', '0', ' '] + unit_name(k),
{
    lemma_pow1024_values();
    let p = pow1024(k);
    let n = m * p;
    assert(p <= 0x100_0000_0000);
    assert(n < 1024 * p) by (nonlinear_arith)
        requires
            m < 1024,
            p >= 1,
            n == m * p,
    ;
    assert(n >= p) by (nonlinear_arith)
        requires
            m >= 1,
            p >= 1,
            n == m * p,
    ;
    assert(n < float_exact_limit()) by (nonlinear_arith)
        requires
            n < 1024 * p,
            p <= 0x100_0000_0000,
    ;
    lemma_exact_float(n);
    lemma_unit_search(n, 0, k);
    assert(n * 100 == (m * 100) * p) by (nonlinear_arith)
        requires
            n == m * p,
    ;
    vstd::arithmetic::div_mod::lemma_div_multiples_vanish((m * 100) as int, p as int);
    vstd::arithmetic::div_mod::lemma_mod_multiples_vanish((m * 100) as int, 0, p as int);
    assert((n * 100) / p == m * 100);
    assert((n * 100) % p == 0) by {
        vstd::arithmetic::div_mod::lemma_mod_multiples_basic((m * 100) as int, p as int);
    }
    assert(round_half_even(n * 100, p) == m * 100);
    assert((m * 100) / 100 == m);
    assert((m * 100) % 100 == 0);
    assert(hundredths_text(m * 100) =~= decimal(m) + seq!['.', '0', '0']);
}

/// The value of `bytes as f64`, computed exactly.
fn float_value_of(bytes: u64) -> (v: u128)
    ensures
        v == float_value(bytes as nat),
        v <= 0x2_0000_0000_0000_0000,
{
    let n: u128 = bytes as u128;
    let mut p: u128 = 1;
    proof {
        assert(n / 1 == n);
    }
    while n / p >= 0x20_0000_0000_0000
        invariant
            1 <= p < 0x1000,
            n < 0x1_0000_0000_0000_0000,
            float_spacing(n as nat) == p * float_spacing((n / p) as nat),
        decreases n - p,
    {
        proof {
            let q = (n / p) as nat;
            assert(q >= float_exact_limit());
            assert(float_spacing(q) == 2 * float_spacing(q / 2));
            lemma_halve_quotient(n as nat, p as nat);
            assert(p * (n / p) <= n) by (nonlinear_arith)
                requires
                    p >= 1,
            ;
            assert(p * 0x20_0000_0000_0000 <= p * (n / p)) by (nonlinear_arith)
                requires
                    n / p >= 0x20_0000_0000_0000,
                    p >= 1,
            ;
            assert(p * float_spacing(q) == (2 * p) * float_spacing(q / 2)) by (nonlinear_arith)
                requires
                    float_spacing(q) == 2 * float_spacing(q / 2),
            ;
        }
        p = p * 2;
    }
    let q = n / p;
    let r = n % p;
    proof {
        let q0 = (n / p) as nat;
        assert(float_spacing(q0) == 1);
        let fs = float_spacing(q0);
        assert(p * fs == p) by (nonlinear_arith)
            requires
                fs == 1,
        ;
        assert(float_spacing(n as nat) == p);
    }
    let rounded = if 2 * r > p || (2 * r == p && q % 2 == 1) {
        q + 1
    } else {
        q
    };
    assert(rounded <= 0x20_0000_0000_0000);
    assert(rounded * p <= 0x2_0000_0000_0000_0000) by (nonlinear_arith)
        requires
            rounded <= 0x20_0000_0000_0000,
            p < 0x1000,
    ;
    rounded * p
}

/// The unit that a size of value `v` is shown in, and 1024 to its power.
fn unit_of(v: u128) -> (res: (usize, u128))
    requires
        v <= 0x2_0000_0000_0000_0000,
    ensures
        res.0 == size_unit(v as nat, 0),
        res.0 <= 4,
        res.1 == pow1024(res.0 as nat),
        res.0 > 0 ==> v >= res.1,
{
    let mut unit: usize = 0;
    let mut scale: u128 = 1;
    proof {
        lemma_pow1024_values();
    }
    while unit < 4 && v >= scale * 1024
        invariant
            unit <= 4,
            scale == pow1024(unit as nat),
            size_unit(v as nat, 0) == size_unit(v as nat, unit as nat),
            unit > 0 ==> v >= scale,
            pow1024(1) == 1024,
            pow1024(2) == 0x10_0000,
            pow1024(3) == 0x4000_0000,
            pow1024(4) == 0x100_0000_0000,
            pow1024(5) == 0x4_0000_0000_0000,
        decreases 4 - unit,
    {
        scale = scale * 1024;
        unit = unit + 1;
    }
    assert(size_unit(v as nat, unit as nat) == unit);
    (unit, scale)
}

/// `v * 100 / scale` rounded, ties to even.
fn rounded_hundredths(v: u128, scale: u128) -> (h: u128)
    requires
        v <= 0x2_0000_0000_0000_0000,
        1024 <= scale <= 0x4_0000_0000_0000,
    ensures
        h == round_half_even(v as nat * 100, scale as nat),
        h / 100 < 0x1_0000_0000_0000_0000,
{
    let num = v * 100;
    let q = num / scale;
    let r = num % scale;
    assert(r < scale);
    assert(q <= num / 1024) by {
        vstd::arithmetic::div_mod::lemma_div_is_ordered_by_denominator(num as int, 1024, scale as int);
    }
    if 2 * r > scale || (2 * r == scale && q % 2 == 1) {
        q + 1
    } else {
        q
    }
}

/// Appends the two-decimal text of `h` hundredths.
fn push_hundredths(out: &mut String, h: u128)
    requires
        h / 100 < 0x1_0000_0000_0000_0000,
    ensures
        final(out)@ == old(out)@ + hundredths_text(h as nat),
{
    let whole = h / 100;
    push_decimal(out, whole as u64);
    let frac = h % 100;
    push_char(out, '.');
    push_char(out, ((48 + frac / 10) as u8) as char);
    push_char(out, ((48 + frac % 10) as u8) as char);
    assert(final(out)@ =~= old(out)@ + hundredths_text(h as nat));
}

/// Appends the name of unit `unit`.
fn push_unit_name(out: &mut String, unit: usize)
    requires
        unit <= 4,
    ensures
        final(out)@ == old(out)@ + unit_name(unit as nat),
{
    proof {
        reveal_strlit("B");
        reveal_strlit("KiB");
        reveal_strlit("MiB");
        reveal_strlit("GiB");
        reveal_strlit("TiB");
    }
    if unit == 0 {
        out.append("B");
    } else if unit == 1 {
        out.append("KiB");
    } else if unit == 2 {
        out.append("MiB");
    } else if unit == 3 {
        out.append("GiB");
    } else {
        out.append("TiB");
    }
    assert(final(out)@ =~= old(out)@ + unit_name(unit as nat));
}

/// Formats a byte count in binary units: `0 B`, `512 B`, `1.50 KiB`, `5.00 MiB`.
pub fn human_size(bytes: u64) -> (res: String)
    ensures
        res@ == human_size_text(bytes as nat),
{
    let v = float_value_of(bytes);
    let (unit, scale) = unit_of(v);
    let mut out = String::new();
    if unit == 0 {
        push_decimal(&mut out, bytes);
    } else {
        proof {
            lemma_pow1024_values();
        }
        let h = rounded_hundredths(v, scale);
        push_hundredths(&mut out, h);
    }
    push_char(&mut out, ' ');
    push_unit_name(&mut out, unit);
    out
}

/// What one domain's downloaded files amount to.
pub struct DomainStats {
    /// `<urlset>` files.
    pub sitemaps: usize,
    /// `<sitemapindex>` files.
    pub indexes: usize,
    /// Page locations in the `<urlset>` files.
    pub locs: usize,
    /// `<xhtml:link>` alternates in the `<urlset>` files.
    pub xhtml_links: usize,
    /// Bytes of the files that are sitemaps or indexes.
    pub bytes_on_disk: u64,
    /// Files that could not be read or are no sitemap.
    pub skipped: usize,
}

/// Whether recording a file of `size` bytes read as `parsed` keeps every
/// count of `s` within its type.
pub open spec fn fits_file(s: DomainStats, size: u64, parsed: Result<ParsedSitemap, SitemapError>) -> bool {
    match parsed {
        Ok(p) => match p.kind {
            SitemapKind::UrlSet(l) => {
                &&& s.sitemaps < usize::MAX
                &&& s.locs + l@.len() <= usize::MAX
                &&& s.xhtml_links + p.xhtml_links <= usize::MAX
                &&& s.bytes_on_disk + size <= u64::MAX
            },
            SitemapKind::Index(_) => {
                &&& s.indexes < usize::MAX
                &&& s.bytes_on_disk + size <= u64::MAX
            },
        },
        Err(_) => s.skipped < usize::MAX,
    }
}

impl DomainStats {
    /// No files seen.
    pub fn new() -> (s: DomainStats)
        ensures
            s.sitemaps == 0 && s.indexes == 0 && s.locs == 0,
            s.xhtml_links == 0 && s.bytes_on_disk == 0 && s.skipped == 0,
    {
        DomainStats { sitemaps: 0, indexes: 0, locs: 0, xhtml_links: 0, bytes_on_disk: 0, skipped: 0 }
    }

    /// Records a file that could not be read.
    pub fn record_unreadable(&mut self)
        requires
            old(self).skipped < usize::MAX,
        ensures
            *final(self) == (DomainStats { skipped: (old(self).skipped + 1) as usize, ..*old(self) }),
    {
        self.skipped = self.skipped + 1;
    }

    /// Records a file of `size` bytes read as `parsed`: a `<urlset>` adds its
    /// locations, alternates and size; an index adds its size; anything else
    /// counts as skipped.
    pub fn record_file(&mut self, size: u64, parsed: &Result<ParsedSitemap, SitemapError>)
        requires
            fits_file(*old(self), size, *parsed),
        ensures
            match parsed {
                Ok(p) => match p.kind {
                    SitemapKind::UrlSet(l) => *final(self) == (DomainStats {
                        sitemaps: (old(self).sitemaps + 1) as usize,
                        locs: (old(self).locs + l@.len()) as usize,
                        xhtml_links: (old(self).xhtml_links + p.xhtml_links) as usize,
                        bytes_on_disk: (old(self).bytes_on_disk + size) as u64,
                        ..*old(self)
                    }),
                    SitemapKind::Index(_) => *final(self) == (DomainStats {
                        indexes: (old(self).indexes + 1) as usize,
                        bytes_on_disk: (old(self).bytes_on_disk + size) as u64,
                        ..*old(self)
                    }),
                },
                Err(_) => *final(self) == (DomainStats { skipped: (old(self).skipped + 1) as usize, ..*old(self) }),
            },
    {
        match parsed {
            Ok(p) => match &p.kind {
                SitemapKind::UrlSet(l) => {
                    self.sitemaps = self.sitemaps + 1;
                    self.locs = self.locs + l.len();
                    self.xhtml_links = self.xhtml_links + p.xhtml_links;
                    self.bytes_on_disk = self.bytes_on_disk + size;
                },
                SitemapKind::Index(_) => {
                    self.indexes = self.indexes + 1;
                    self.bytes_on_disk = self.bytes_on_disk + size;
                },
            },
            Err(_) => {
                self.skipped = self.skipped + 1;
            },
        }
    }
}

/// Whether adding `d` to `t` keeps every count within its type.
pub open spec fn fits_totals(t: DomainStats, d: DomainStats) -> bool {
    &&& t.sitemaps + d.sitemaps <= usize::MAX
    &&& t.indexes + d.indexes <= usize::MAX
    &&& t.locs + d.locs <= usize::MAX
    &&& t.xhtml_links + d.xhtml_links <= usize::MAX
    &&& t.bytes_on_disk + d.bytes_on_disk <= u64::MAX
    &&& t.skipped + d.skipped <= usize::MAX
}

impl DomainStats {
    /// Adds the counts of `d` to these totals.
    pub fn add(&mut self, d: &DomainStats)
        requires
            fits_totals(*old(self), *d),
        ensures
            final(self).sitemaps == old(self).sitemaps + d.sitemaps,
            final(self).indexes == old(self).indexes + d.indexes,
            final(self).locs == old(self).locs + d.locs,
            final(self).xhtml_links == old(self).xhtml_links + d.xhtml_links,
            final(self).bytes_on_disk == old(self).bytes_on_disk + d.bytes_on_disk,
            final(self).skipped == old(self).skipped + d.skipped,
    {
        self.sitemaps = self.sitemaps + d.sitemaps;
        self.indexes = self.indexes + d.indexes;
        self.locs = self.locs + d.locs;
        self.xhtml_links = self.xhtml_links + d.xhtml_links;
        self.bytes_on_disk = self.bytes_on_disk + d.bytes_on_disk;
        self.skipped = self.skipped + d.skipped;
    }
}

} // verus!
