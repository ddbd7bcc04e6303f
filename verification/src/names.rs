//! Names under which downloaded or extracted sitemaps are saved.
use vstd::prelude::*;
use vstd::string::StringExecFns;

use crate::text::{chars_of, decimal, digit_char, push_char, push_decimal, string_of};

verus! {

broadcast use vstd::string::group_string_axioms;

/// Characters that a saved file name keeps as they are.
pub open spec fn is_safe_char(c: char) -> bool {
    ||| ('a' <= c && c <= 'z')
    ||| ('A' <= c && c <= 'Z')
    ||| ('0' <= c && c <= '9')
    ||| c == '.'
    ||| c == '-'
    ||| c == '_'
}

/// A character of a saved file name: itself where safe, `_` otherwise.
pub open spec fn clean_char(c: char) -> char {
    if is_safe_char(c) {
        c
    } else {
        '_'
    }
}

/// ASCII lower case of one character.
pub open spec fn ascii_lower(c: char) -> char {
    if 'A' <= c && c <= 'Z' {
        ((c as u32) + 32) as char
    } else {
        c
    }
}

/// `.gz`
pub open spec fn gz_suffix() -> Seq<char> {
    seq!['.', 'g', 'z']
}

/// `.xml`
pub open spec fn xml_suffix() -> Seq<char> {
    seq!['.', 'x', 'm', 'l']
}

/// Whether `s` ends with `suffix`.
pub open spec fn ends_with(s: Seq<char>, suffix: Seq<char>) -> bool {
    s.len() >= suffix.len() && s.subrange(s.len() - suffix.len(), s.len() as int) == suffix
}

/// Whether `s` ends with `.xml`, in any mix of upper and lower case.
pub open spec fn ends_with_xml(s: Seq<char>) -> bool {
    s.len() >= 4 && s.subrange(s.len() - 4, s.len() as int).map_values(|c: char| ascii_lower(c))
        == xml_suffix()
}

/// `name` without a trailing `.gz`.
pub open spec fn without_gz(name: Seq<char>) -> Seq<char> {
    if ends_with(name, gz_suffix()) {
        name.subrange(0, name.len() - 3)
    } else {
        name
    }
}

/// The saved file name for `name`: a trailing `.gz` dropped, every unsafe
/// character replaced by `_`, and `.xml` appended unless it already ends so.
pub open spec fn sanitized(name: Seq<char>) -> Seq<char> {
    let cleaned = without_gz(name).map_values(|c: char| clean_char(c));
    if ends_with_xml(cleaned) {
        cleaned
    } else {
        cleaned + xml_suffix()
    }
}

fn is_safe(c: char) -> (res: bool)
    ensures
        res == is_safe_char(c),
{
    ('a' <= c && c <= 'z') || ('A' <= c && c <= 'Z') || ('0' <= c && c <= '9') || c == '.' || c
        == '-' || c == '_'
}

pub(crate) fn lower(c: char) -> (res: char)
    ensures
        res == ascii_lower(c),
{
    if 'A' <= c && c <= 'Z' {
        ((c as u32) + 32) as u8 as char
    } else {
        c
    }
}

/// Makes `name` safe to use as a saved file name, ensuring it ends in `.xml`.
pub fn sanitize_filename(name: &str) -> (res: String)
    ensures
        res@ == sanitized(name@),
{
    let chars = chars_of(name);
    let n = chars.len();
    let keep = if n >= 3 && chars[n - 3] == '.' && chars[n - 2] == 'g' && chars[n - 1] == 'z' {
        assert(chars@.subrange(n - 3, n as int) =~= gz_suffix());
        n - 3
    } else {
        assert(!ends_with(chars@, gz_suffix())) by {
            if ends_with(chars@, gz_suffix()) {
                assert(chars@.subrange(n - 3, n as int)[0] == chars@[n - 3]);
                assert(chars@.subrange(n - 3, n as int)[1] == chars@[n - 2]);
                assert(chars@.subrange(n - 3, n as int)[2] == chars@[n - 1]);
            }
        }
        n
    };
    let ghost stripped = without_gz(name@);
    assert(stripped =~= chars@.subrange(0, keep as int));
    let mut cleaned: Vec<char> = Vec::new();
    let mut i: usize = 0;
    while i < keep
        invariant
            keep <= chars@.len(),
            i <= keep,
            stripped == chars@.subrange(0, keep as int),
            cleaned@ == stripped.take(i as int).map_values(|c: char| clean_char(c)),
        decreases keep - i,
    {
        let c = chars[i];
        let d = if is_safe(c) {
            c
        } else {
            '_'
        };
        cleaned.push(d);
        i = i + 1;
        assert(cleaned@ =~= stripped.take(i as int).map_values(|c: char| clean_char(c)));
    }
    assert(stripped.take(keep as int) =~= stripped);
    let ghost clean_seq = cleaned@;
    let m = cleaned.len();
    let has_xml = m >= 4 && cleaned[m - 4] == '.' && lower(cleaned[m - 3]) == 'x' && lower(
        cleaned[m - 2],
    ) == 'm' && lower(cleaned[m - 1]) == 'l';
    assert(has_xml == ends_with_xml(clean_seq)) by {
        if m >= 4 {
            let tail = clean_seq.subrange(m - 4, m as int).map_values(|c: char| ascii_lower(c));
            assert(tail[0] == ascii_lower(clean_seq[m - 4]));
            assert(tail[1] == ascii_lower(clean_seq[m - 3]));
            assert(tail[2] == ascii_lower(clean_seq[m - 2]));
            assert(tail[3] == ascii_lower(clean_seq[m - 1]));
            assert(ascii_lower(clean_seq[m - 4]) == '.' <==> clean_seq[m - 4] == '.');
            if has_xml {
                assert(tail =~= xml_suffix());
            }
        }
    }
    let mut out = string_of(&cleaned);
    if !has_xml {
        out.append(".xml");
        proof {
            reveal_strlit(".xml");
        }
        assert(out@ =~= clean_seq + xml_suffix());
    }
    out
}

/// The saved name of a sanitized name is itself: every character is safe and
/// the name ends in `.xml`, in some case.
pub proof fn lemma_sanitized_is_safe(name: Seq<char>)
    ensures
        forall|i: int| 0 <= i < sanitized(name).len() ==> is_safe_char(#[trigger] sanitized(name)[i]),
        ends_with_xml(sanitized(name)),
{
    let cleaned = without_gz(name).map_values(|c: char| clean_char(c));
    assert forall|i: int| 0 <= i < cleaned.len() implies is_safe_char(#[trigger] cleaned[i]) by {}
    if !ends_with_xml(cleaned) {
        let out = cleaned + xml_suffix();
        assert(out.subrange(out.len() - 4, out.len() as int) =~= xml_suffix());
        assert(out.subrange(out.len() - 4, out.len() as int).map_values(|c: char| ascii_lower(c))
            =~= xml_suffix());
        assert forall|i: int| 0 <= i < out.len() implies is_safe_char(#[trigger] out[i]) by {
            if i >= cleaned.len() {
                assert(out[i] == xml_suffix()[i - cleaned.len()]);
            }
        }
    }
}

/// A name made only of safe characters that already ends in `.xml` (in
/// any case) is saved under itself.
pub proof fn lemma_safe_name_kept(name: Seq<char>)
    requires
        forall|i: int| 0 <= i < name.len() ==> is_safe_char(#[trigger] name[i]),
        ends_with_xml(name),
    ensures
        sanitized(name) == name,
{
    // `name` ends in `l` or `L`, so not in `.gz`.
    assert(!ends_with(name, gz_suffix())) by {
        let tail = name.subrange(name.len() - 4, name.len() as int).map_values(|c: char| ascii_lower(c));
        assert(tail[3] == ascii_lower(name[name.len() - 1]));
        if ends_with(name, gz_suffix()) {
            assert(name.subrange(name.len() - 3, name.len() as int)[2] == name[name.len() - 1]);
        }
    }
    assert(without_gz(name) == name);
    assert(name.map_values(|c: char| clean_char(c)) =~= name);
}

/// Sanitizing is idempotent: a saved file name is its own saved name.
pub proof fn lemma_sanitize_idempotent(name: Seq<char>)
    ensures
        sanitized(sanitized(name)) == sanitized(name),
{
    lemma_sanitized_is_safe(name);
    lemma_safe_name_kept(sanitized(name));
}

/// The numbered form of `base`: `{number}-{base}`.
pub open spec fn numbered_name(number: nat, base: Seq<char>) -> Seq<char> {
    decimal(number) + seq!['-'] + base
}

/// Whether `number` is the first of 1, 2, ... whose numbered form of `base`
/// is not in `used`.
pub open spec fn is_first_free_number(used: Set<Seq<char>>, base: Seq<char>, number: nat) -> bool {
    &&& number >= 1
    &&& !used.contains(numbered_name(number, base))
    &&& forall|j: nat| 1 <= j < number ==> used.contains(#[trigger] numbered_name(j, base))
}

/// The name that `base` gets beside the names `used`: `base` itself while it
/// is free, else its numbered form with the first free number.
pub open spec fn is_fresh_name_for(used: Set<Seq<char>>, base: Seq<char>, name: Seq<char>) -> bool {
    if !used.contains(base) {
        name == base
    } else {
        exists|number: nat| is_first_free_number(used, base, number) && name == numbered_name(number, base)
    }
}

proof fn lemma_digit_char(d: nat)
    requires
        d < 10,
    ensures
        digit_char(d) as u32 == 48 + d,
{
    let b: u8 = (48 + d) as u8;
    assert(b as u32 == 48 + d);
    assert((b as char) as u32 == b as u32);
}

pub proof fn lemma_decimal_digits(n: nat)
    ensures
        decimal(n).len() >= 1,
        forall|i: int| 0 <= i < decimal(n).len() ==> '0' <= #[trigger] decimal(n)[i] && decimal(n)[i] <= '9',
    decreases n,
{
    if n >= 10 {
        lemma_decimal_digits(n / 10);
    }
}

/// Distinct numbers have distinct numerals.
pub proof fn lemma_decimal_injective(a: nat, b: nat)
    requires
        decimal(a) == decimal(b),
    ensures
        a == b,
    decreases a,
{
    lemma_decimal_digits(a);
    lemma_decimal_digits(b);
    if a < 10 && b < 10 {
        assert(decimal(a) == seq![digit_char(a)]);
        assert(decimal(b) == seq![digit_char(b)]);
        assert(decimal(a)[0] == decimal(b)[0]);
        assert(seq![digit_char(a)][0] == digit_char(a));
        assert(seq![digit_char(b)][0] == digit_char(b));
        assert(digit_char(a) == digit_char(b));
        lemma_digit_char(a);
        lemma_digit_char(b);
        assert(digit_char(a) as u32 == digit_char(b) as u32);
    } else if a < 10 {
        lemma_decimal_digits(b / 10);
        assert(decimal(a) == seq![digit_char(a)]);
        assert(decimal(b) == decimal(b / 10).push(digit_char(b % 10)));
        assert(decimal(b).len() >= 2);
    } else if b < 10 {
        lemma_decimal_digits(a / 10);
        assert(decimal(b) == seq![digit_char(b)]);
        assert(decimal(a) == decimal(a / 10).push(digit_char(a % 10)));
        assert(decimal(a).len() >= 2);
    } else {
        let da = decimal(a);
        let db = decimal(b);
        assert(da == decimal(a / 10).push(digit_char(a % 10)));
        assert(db == decimal(b / 10).push(digit_char(b % 10)));
        assert(da[da.len() - 1] == db[db.len() - 1]);
        lemma_digit_char(a % 10);
        lemma_digit_char(b % 10);
        assert(a % 10 == b % 10);
        assert(da.drop_last() =~= decimal(a / 10));
        assert(db.drop_last() =~= decimal(b / 10));
        lemma_decimal_injective(a / 10, b / 10);
        assert(a == 10 * (a / 10) + a % 10);
        assert(b == 10 * (b / 10) + b % 10);
    }
}

/// Distinct numbers give distinct numbered forms of one base.
pub proof fn lemma_numbered_injective(a: nat, b: nat, base: Seq<char>)
    requires
        a != b,
    ensures
        numbered_name(a, base) != numbered_name(b, base),
{
    let da = decimal(a);
    let db = decimal(b);
    let na = numbered_name(a, base);
    let nb = numbered_name(b, base);
    lemma_decimal_digits(a);
    lemma_decimal_digits(b);
    if na == nb {
        if da.len() < db.len() {
            assert(na[da.len() as int] == '-');
            assert(nb[da.len() as int] == db[da.len() as int]);
        } else if db.len() < da.len() {
            assert(nb[db.len() as int] == '-');
            assert(na[db.len() as int] == da[db.len() as int]);
        } else {
            assert(na.subrange(0, da.len() as int) =~= da);
            assert(nb.subrange(0, db.len() as int) =~= db);
            lemma_decimal_injective(a, b);
        }
    }
}

/// A name given out beside the names `used` is none of them, so names
/// given out one after another never collide.
pub proof fn lemma_fresh_name_unused(used: Set<Seq<char>>, base: Seq<char>, name: Seq<char>)
    requires
        is_fresh_name_for(used, base, name),
    ensures
        !used.contains(name),
{
}

/// Whether `names` are the names that claims of `bases`, one after another,
/// give out when the names `used` are taken before the first of them.
pub open spec fn fresh_claims(used: Set<Seq<char>>, bases: Seq<Seq<char>>, names: Seq<Seq<char>>) -> bool
    decreases names.len(),
{
    if names.len() == 0 {
        bases.len() == 0
    } else {
        &&& bases.len() == names.len()
        &&& fresh_claims(used, bases.drop_last(), names.drop_last())
        &&& is_fresh_name_for(used + names.drop_last().to_set(), bases.last(), names.last())
    }
}

/// Names given out one after another, beginning beside the names `used`,
/// are pairwise distinct and none of them was in `used`; the names taken
/// afterwards are `used` and these, one more per claim.
pub proof fn lemma_claims_distinct(used: Set<Seq<char>>, bases: Seq<Seq<char>>, names: Seq<Seq<char>>)
    requires
        used.finite(),
        fresh_claims(used, bases, names),
    ensures
        names.no_duplicates(),
        forall|i: int| 0 <= i < names.len() ==> !used.contains(#[trigger] names[i]),
        (used + names.to_set()).finite(),
        (used + names.to_set()).len() == used.len() + names.len(),
    decreases names.len(),
{
    broadcast use vstd::seq_lib::seq_to_set_is_finite;
    if names.len() == 0 {
        assert(used + names.to_set() =~= used);
    } else {
        let init = names.drop_last();
        let last = names.last();
        let before = used + init.to_set();
        lemma_claims_distinct(used, bases.drop_last(), init);
        lemma_fresh_name_unused(before, bases.last(), last);
        assert(!init.contains(last)) by {
            if init.contains(last) {
                assert(init.to_set().contains(last));
            }
        }
        assert forall|i: int, j: int| 0 <= i < names.len() && 0 <= j < names.len() && i != j implies names[i] != names[j] by {
            if i == names.len() - 1 {
                assert(init[j] == names[j]);
            } else if j == names.len() - 1 {
                assert(init[i] == names[i]);
            } else {
                assert(init[i] == names[i] && init[j] == names[j]);
            }
        }
        assert forall|i: int| 0 <= i < names.len() implies !used.contains(#[trigger] names[i]) by {
            if i < names.len() - 1 {
                assert(init[i] == names[i]);
            }
        }
        assert forall|x: Seq<char>| names.contains(x) <==> init.contains(x) || x == last by {
            if names.contains(x) && x != last {
                let k = choose|k: int| 0 <= k < names.len() && names[k] == x;
                assert(init[k] == x);
            }
            if init.contains(x) {
                let k = choose|k: int| 0 <= k < init.len() && init[k] == x;
                assert(names[k] == x);
            }
            if x == last {
                assert(names[names.len() - 1] == x);
            }
        }
        assert(used + names.to_set() =~= before.insert(last));
    }
}

/// The names already given out in one directory.
pub struct NameRegistry {
    names: Vec<String>,
}

impl View for NameRegistry {
    type V = Set<Seq<char>>;

    closed spec fn view(&self) -> Set<Seq<char>> {
        self.names@.map_values(|s: String| s@).to_set()
    }
}

impl NameRegistry {
    /// No name is held twice.
    #[verifier::type_invariant]
    spec fn holds_distinct_names(self) -> bool {
        self.names@.map_values(|s: String| s@).no_duplicates()
    }

    /// A registry with no names given out.
    pub fn new() -> (r: NameRegistry)
        ensures
            r@ == Set::<Seq<char>>::empty(),
    {
        let r = NameRegistry { names: Vec::new() };
        assert(r.names@.map_values(|s: String| s@) =~= Seq::<Seq<char>>::empty());
        assert(r@ =~= Set::<Seq<char>>::empty());
        r
    }

    /// How many names have been given out.
    pub fn count(&self) -> (n: usize)
        ensures
            n == self@.len(),
    {
        proof {
            use_type_invariant(self);
            self.names@.map_values(|s: String| s@).unique_seq_to_set();
        }
        self.names.len()
    }

    /// Whether `name` has been given out.
    pub fn contains(&self, name: &String) -> (res: bool)
        ensures
            res == self@.contains(name@),
    {
        let ghost views = self.names@.map_values(|s: String| s@);
        let mut k: usize = 0;
        while k < self.names.len()
            invariant
                k <= self.names@.len(),
                views == self.names@.map_values(|s: String| s@),
                forall|j: int| 0 <= j < k ==> views[j] != name@,
            decreases self.names.len() - k,
        {
            if self.names[k] == *name {
                assert(views[k as int] == name@);
                assert(views.contains(name@));
                return true;
            }
            k = k + 1;
        }
        assert(!views.contains(name@));
        false
    }

    fn insert(&mut self, name: String)
        requires
            !old(self)@.contains(name@),
        ensures
            final(self)@ == old(self)@.insert(name@),
    {
        proof {
            use_type_invariant(&*self);
        }
        let ghost before = self.names@.map_values(|s: String| s@);
        let ghost pushed = before.push(name@);
        proof {
            assert forall|i: int, j: int| 0 <= i < pushed.len() && 0 <= j < pushed.len() && i != j implies pushed[i] != pushed[j] by {
                if i == before.len() as int {
                    assert(before[j] == pushed[j]);
                    assert(before.contains(pushed[j]));
                } else if j == before.len() as int {
                    assert(before[i] == pushed[i]);
                    assert(before.contains(pushed[i]));
                }
            }
            assert(pushed.no_duplicates());
        }
        let mut names: Vec<String> = Vec::new();
        std::mem::swap(&mut names, &mut self.names);
        names.push(name);
        assert(names@.map_values(|s: String| s@) =~= pushed);
        self.names = names;
        let ghost after = self.names@.map_values(|s: String| s@);
        assert(after =~= before.push(name@));
        assert(after.to_set() =~= before.to_set().insert(name@)) by {
            assert forall|x: Seq<char>| after.to_set().contains(x) <==> before.to_set().insert(name@).contains(x) by {
                if after.contains(x) && x != name@ {
                    let j = choose|j: int| 0 <= j < after.len() && after[j] == x;
                    assert(before[j] == x);
                }
                if before.contains(x) {
                    let j = choose|j: int| 0 <= j < before.len() && before[j] == x;
                    assert(after[j] == x);
                }
                if x == name@ {
                    assert(after[before.len() as int] == x);
                }
            }
        }
    }

    /// Gives out a name for `base` that no earlier call gave out: `base`
    /// itself if it is still free, else `{i}-{base}` for the first free `i`
    /// of 1, 2, ...
    pub fn claim(&mut self, base: &str) -> (name: String)
        requires
            old(self)@.len() < usize::MAX,
        ensures
            !old(self)@.contains(name@),
            final(self)@ == old(self)@.insert(name@),
            is_fresh_name_for(old(self)@, base@, name@),
    {
        let ghost used = self@;
        proof {
            let views = self.names@.map_values(|s: String| s@);
            views.lemma_cardinality_of_set();
        }
        let plain = String::from_str(base);
        if !self.contains(&plain) {
            let out = plain.clone();
            self.insert(plain);
            return out;
        }
        let mut number: usize = 1;
        let ghost mut taken: Set<Seq<char>> = Set::empty();
        loop
            invariant
                self@ == used,
                used == old(self)@,
                used.contains(base@),
                used.finite(),
                used.len() < usize::MAX,
                1 <= number,
                taken.finite(),
                taken.len() == number - 1,
                taken.subset_of(used),
                forall|x: Seq<char>, k: nat| #[trigger] taken.contains(x) && k >= number ==> x != #[trigger] numbered_name(k, base@),
                forall|j: nat| 1 <= j < number ==> used.contains(#[trigger] numbered_name(j, base@)),
            decreases used.len() + 1 - number,
        {
            let mut candidate = String::new();
            push_decimal(&mut candidate, number as u64);
            push_char(&mut candidate, '-');
            candidate.append(base);
            assert(candidate@ =~= numbered_name(number as nat, base@));
            if !self.contains(&candidate) {
                let out = candidate.clone();
                self.insert(candidate);
                assert(is_first_free_number(used, base@, number as nat));
                return out;
            }
            proof {
                let fresh = numbered_name(number as nat, base@);
                assert(!taken.contains(fresh));
                let next = taken.insert(fresh);
                assert forall|x: Seq<char>, k: nat| #[trigger] next.contains(x) && k >= number + 1 implies x != #[trigger] numbered_name(k, base@) by {
                    if x == fresh {
                        lemma_numbered_injective(number as nat, k, base@);
                    }
                }
                vstd::set_lib::lemma_len_subset(next, used);
                taken = next;
            }
            number = number + 1;
        }
    }
}

} // verus!
