//! The virtual IP generator: country-scoped address allocation out of the
//! registered ranges, weighted by range size for even coverage.

use vstd::prelude::*;
use vstd::string::StrSliceExecFns;
use vstd::string::StringExecFns;

use crate::country::{AddressRange, Country};
use crate::errors::CoreError;
use crate::ipfmt::{dotted_quad, format_ipv4};
use crate::rng::Lcg;

verus! {

/// A synthetic address bound to a country: the numeric value, its dotted
/// decimal text, and the country it was drawn for.
pub struct VirtualIP {
    pub ip: String,
    pub addr: u32,
    pub country_code: String,
}

impl VirtualIP {
    /// The text always renders the numeric address.
    pub open spec fn wf(self) -> bool {
        self.ip@ == dotted_quad(self.addr)
    }

    /// A field-for-field copy.
    pub fn duplicate(&self) -> (r: VirtualIP)
        ensures
            r == *self,
    {
        VirtualIP {
            ip: self.ip.clone(),
            addr: self.addr,
            country_code: self.country_code.clone(),
        }
    }
}

/// The number of addresses the first `n` ranges can hand out for `code`.
pub open spec fn sum_usable_to(rs: Seq<AddressRange>, code: Seq<char>, n: int) -> int
    decreases n,
{
    if n <= 0 {
        0
    } else {
        sum_usable_to(rs, code, n - 1) + if rs[n - 1].country_code@ == code {
            rs[n - 1].usable_count()
        } else {
            0
        }
    }
}

/// Whether any of the ranges belongs to `code`.
pub open spec fn seq_has_country(rs: Seq<AddressRange>, code: Seq<char>) -> bool {
    exists|i: int| 0 <= i < rs.len() && (#[trigger] rs[i]).country_code@ == code
}

/// Country-scoped address generation over immutable reference data.
pub struct IPGenerator {
    pub countries: Vec<Country>,
    pub ranges: Vec<AddressRange>,
    pub rng: Lcg,
}

impl IPGenerator {
    /// Every range is a non-empty interval and the registry stays small
    /// enough that counting in 64 bits cannot overflow.
    pub open spec fn wf(self) -> bool {
        &&& forall|i: int|
            0 <= i < self.ranges@.len() ==> (#[trigger] self.ranges@[i]).wf()
        &&& self.ranges@.len() <= 0x10000
    }

    /// Whether any range is registered for `code`.
    pub open spec fn spec_has_country(self, code: Seq<char>) -> bool {
        seq_has_country(self.ranges@, code)
    }

    /// Build a generator from loaded reference data. Malformed ranges are
    /// dropped and the registry is capped so that the generator is well
    /// formed whatever was loaded.
    pub fn new(countries: Vec<Country>, ranges: Vec<AddressRange>) -> (r: IPGenerator)
        ensures
            r.wf(),
            r.countries == countries,
            (forall|i: int| 0 <= i < ranges@.len() ==> (#[trigger] ranges@[i]).wf())
                && ranges@.len() <= 0x10000 ==> r.ranges@ == ranges@,
    {
        let seed_wide = crate::runtime::unix_timestamp_ms();
        let seed: u64 = (seed_wide % 0x10000000000000000u128) as u64;
        let mut kept: Vec<AddressRange> = Vec::new();
        let mut i: usize = 0;
        while i < ranges.len()
            invariant
                i <= ranges@.len(),
                kept@.len() <= i,
                forall|j: int| 0 <= j < kept@.len() ==> (#[trigger] kept@[j]).wf(),
                kept@.len() <= 0x10000,
                (forall|j: int| 0 <= j < i ==> (#[trigger] ranges@[j]).wf()) && i <= 0x10000
                    ==> kept@ == ranges@.subrange(0, i as int),
            decreases ranges@.len() - i,
        {
            let rg = &ranges[i];
            if rg.first <= rg.last && kept.len() < 0x10000 {
                kept.push(rg.duplicate());
            }
            proof {
                if (forall|j: int| 0 <= j < i + 1 ==> (#[trigger] ranges@[j]).wf()) && i + 1
                    <= 0x10000 {
                    assert(kept@ =~= ranges@.subrange(0, i as int + 1));
                }
            }
            i = i + 1;
        }
        proof {
            if (forall|j: int| 0 <= j < ranges@.len() ==> (#[trigger] ranges@[j]).wf())
                && ranges@.len() <= 0x10000 {
                assert(kept@ =~= ranges@);
            }
        }
        IPGenerator { countries, ranges: kept, rng: Lcg::new(seed) }
    }

    /// All registered countries, each exactly once, sorted by display name.
    pub fn list_countries(&self) -> (r: Vec<Country>)
        ensures
            r@.len() == self.countries@.len(),
            r@.to_multiset() == self.countries@.to_multiset(),
            forall|a: int, b: int|
                0 <= a < b < r@.len() ==> lex_le((#[trigger] r@[a]).name@, (#[trigger] r@[b]).name@),
            forall|i: int| 0 <= i < r@.len() ==> country_from(#[trigger] r@[i], self.countries@),
    {
        let mut all: Vec<Country> = Vec::new();
        let mut i: usize = 0;
        while i < self.countries.len()
            invariant
                i <= self.countries@.len(),
                all@ == self.countries@.subrange(0, i as int),
            decreases self.countries@.len() - i,
        {
            all.push(self.countries[i].duplicate());
            proof {
                assert(all@ =~= self.countries@.subrange(0, i as int + 1));
            }
            i = i + 1;
        }
        proof {
            assert(all@ =~= self.countries@);
            assert forall|k: int| 0 <= k < all@.len() implies country_from(
                #[trigger] all@[k],
                self.countries@,
            ) by {
                assert(self.countries@[k] == all@[k]);
            }
        }
        sort_countries_by_name(all, Ghost(self.countries@))
    }

    /// Draw a fresh address for `country_code`.
    ///
    /// Succeeds exactly when at least one range is registered for the code;
    /// the address then lies strictly inside one of that country's ranges,
    /// network and broadcast addresses excluded, and carries the code.
    pub fn generate(&mut self, country_code: &str) -> (r: Result<VirtualIP, CoreError>)
        requires
            old(self).wf(),
        ensures
            final(self).wf(),
            final(self).countries == old(self).countries,
            final(self).ranges == old(self).ranges,
            match r {
                Ok(v) => {
                    &&& old(self).spec_has_country(country_code@)
                    &&& v.wf()
                    &&& v.country_code@ == country_code@
                    &&& exists|i: int|
                        0 <= i < old(self).ranges@.len() && (#[trigger] old(
                            self,
                        ).ranges@[i]).country_code@ == country_code@ && old(self).ranges@[i].usable(
                            v.addr,
                        )
                },
                Err(e) => e == CoreError::InvalidCountry && !old(self).spec_has_country(
                    country_code@,
                ),
            },
    {
        let ghost rs = self.ranges@;
        let ghost code = country_code@;
        let n = self.ranges.len();
        let mut total: u64 = 0;
        let mut i: usize = 0;
        while i < n
            invariant
                self.wf(),
                self.countries == old(self).countries,
                self.ranges == old(self).ranges,
                rs == self.ranges@,
                code == country_code@,
                n == rs.len(),
                i <= n,
                total == sum_usable_to(rs, code, i as int),
                total <= 0x100000000u64 * (i as u64),
            decreases n - i,
        {
            let rg = &self.ranges[i];
            if str_eq(rg.country_code.as_str(), country_code) {
                let count = usable_count_of(rg);
                total = total + count;
            }
            i = i + 1;
        }
        if total == 0 {
            proof {
                lemma_sum_zero_no_country(rs, code, n as int);
            }
            return Err(CoreError::InvalidCountry);
        }
        proof {
            lemma_sum_pos_has_country(rs, code, n as int);
        }
        let draw = self.rng.below(total);
        let mut acc: u64 = 0;
        let mut j: usize = 0;
        while j < n
            invariant
                self.wf(),
                rs == self.ranges@,
                code == country_code@,
                self.countries == old(self).countries,
                self.ranges == old(self).ranges,
                n == rs.len(),
                j <= n,
                acc == sum_usable_to(rs, code, j as int),
                acc <= draw,
                draw < total,
                total <= 0x1000000000000u64,
                total == sum_usable_to(rs, code, n as int),
            decreases n - j,
        {
            let rg = &self.ranges[j];
            if str_eq(rg.country_code.as_str(), country_code) {
                let count = usable_count_of(rg);
                if draw < acc + count {
                    let offset = draw - acc;
                    let big = rg.last - rg.first >= 3;
                    let addr_wide: u64 = if big {
                        (rg.first as u64) + 1 + offset
                    } else {
                        (rg.first as u64) + offset
                    };
                    let addr: u32 = addr_wide as u32;
                    assert(rs[j as int].usable(addr));
                    let text = format_ipv4(addr);
                    return Ok(
                        VirtualIP { ip: text, addr, country_code: country_code.to_owned() },
                    );
                }
                acc = acc + count;
            }
            j = j + 1;
        }
        proof {
            assert(false);
        }
        Err(CoreError::InvalidCountry)
    }
}

/// The usable host count of one well-formed range, as a 64-bit value.
fn usable_count_of(rg: &AddressRange) -> (r: u64)
    requires
        rg.wf(),
    ensures
        r == rg.usable_count(),
        r <= 0x100000000u64,
{
    let span_minus_one: u64 = (rg.last as u64) - (rg.first as u64);
    if span_minus_one >= 3 {
        span_minus_one - 1
    } else {
        span_minus_one + 1
    }
}

/// Byte-for-byte equality of two string slices.
pub fn str_eq(a: &str, b: &str) -> (r: bool)
    ensures
        r == (a@ == b@),
{
    let sa = a.to_owned();
    let sb = b.to_owned();
    sa == sb
}

/// A zero range total means no range carries the code.
proof fn lemma_sum_zero_no_country(rs: Seq<AddressRange>, code: Seq<char>, n: int)
    requires
        0 <= n <= rs.len(),
        forall|i: int| 0 <= i < rs.len() ==> (#[trigger] rs[i]).wf(),
        sum_usable_to(rs, code, n) == 0,
    ensures
        forall|i: int| 0 <= i < n ==> (#[trigger] rs[i]).country_code@ != code,
    decreases n,
{
    if n > 0 {
        lemma_sum_nonneg(rs, code, n - 1);
        if rs[n - 1].country_code@ == code {
            rs[n - 1].lemma_wf_usable_nonzero();
            assert(false);
        }
        lemma_sum_zero_no_country(rs, code, n - 1);
    }
}

/// A positive range total exhibits a range carrying the code.
proof fn lemma_sum_pos_has_country(rs: Seq<AddressRange>, code: Seq<char>, n: int)
    requires
        0 <= n <= rs.len(),
        sum_usable_to(rs, code, n) > 0,
    ensures
        exists|i: int| 0 <= i < n && (#[trigger] rs[i]).country_code@ == code,
    decreases n,
{
    if n > 0 {
        if rs[n - 1].country_code@ == code {
        } else {
            lemma_sum_pos_has_country(rs, code, n - 1);
        }
    }
}

/// Partial totals never go negative on well-formed registries.
proof fn lemma_sum_nonneg(rs: Seq<AddressRange>, code: Seq<char>, n: int)
    requires
        0 <= n <= rs.len(),
        forall|i: int| 0 <= i < rs.len() ==> (#[trigger] rs[i]).wf(),
    ensures
        sum_usable_to(rs, code, n) >= 0,
    decreases n,
{
    if n > 0 {
        lemma_sum_nonneg(rs, code, n - 1);
        rs[n - 1].lemma_wf_usable_nonzero();
    }
}


/// Lexicographic order on character sequences, by code point; the shorter
/// sequence comes first on a tie.
pub open spec fn lex_le(a: Seq<char>, b: Seq<char>) -> bool
    decreases a.len(),
{
    if a.len() == 0 {
        true
    } else if b.len() == 0 {
        false
    } else if (a[0] as u32) < (b[0] as u32) {
        true
    } else if (a[0] as u32) > (b[0] as u32) {
        false
    } else {
        lex_le(a.drop_first(), b.drop_first())
    }
}

/// The order is reflexive.
pub proof fn lemma_lex_refl(a: Seq<char>)
    ensures
        lex_le(a, a),
    decreases a.len(),
{
    if a.len() > 0 {
        lemma_lex_refl(a.drop_first());
    }
}

/// Any two sequences compare one way or the other.
pub proof fn lemma_lex_total(a: Seq<char>, b: Seq<char>)
    ensures
        lex_le(a, b) || lex_le(b, a),
    decreases a.len(),
{
    if a.len() > 0 && b.len() > 0 && (a[0] as u32) == (b[0] as u32) {
        lemma_lex_total(a.drop_first(), b.drop_first());
    }
}

/// The order is transitive.
pub proof fn lemma_lex_trans(a: Seq<char>, b: Seq<char>, c: Seq<char>)
    requires
        lex_le(a, b),
        lex_le(b, c),
    ensures
        lex_le(a, c),
    decreases a.len(),
{
    if a.len() > 0 && b.len() > 0 && c.len() > 0 && (a[0] as u32) == (b[0] as u32) && (b[0]
        as u32) == (c[0] as u32) {
        lemma_lex_trans(a.drop_first(), b.drop_first(), c.drop_first());
    }
}

/// Compare two string slices in lexicographic order.
pub fn str_le(x: &str, y: &str) -> (r: bool)
    ensures
        r == lex_le(x@, y@),
{
    let xn = x.unicode_len();
    let yn = y.unicode_len();
    let mut i: usize = 0;
    proof {
        assert(x@.skip(0) =~= x@);
        assert(y@.skip(0) =~= y@);
    }
    while i < xn && i < yn
        invariant
            xn == x@.len(),
            yn == y@.len(),
            i <= xn,
            i <= yn,
            forall|k: int| 0 <= k < i ==> ((#[trigger] x@[k]) as u32) == (y@[k] as u32),
            lex_le(x@, y@) == lex_le(x@.skip(i as int), y@.skip(i as int)),
        decreases xn - i,
    {
        let cx = x.get_char(i) as u32;
        let cy = y.get_char(i) as u32;
        proof {
            assert(x@.skip(i as int)[0] == x@[i as int]);
            assert(y@.skip(i as int)[0] == y@[i as int]);
            assert(x@.skip(i as int).drop_first() =~= x@.skip(i as int + 1));
            assert(y@.skip(i as int).drop_first() =~= y@.skip(i as int + 1));
        }
        if cx < cy {
            return true;
        }
        if cx > cy {
            return false;
        }
        i = i + 1;
    }
    proof {
        if i >= xn {
            assert(x@.skip(i as int).len() == 0);
        } else {
            assert(y@.skip(i as int).len() == 0);
            assert(x@.skip(i as int).len() > 0);
        }
    }
    xn <= yn
}

/// Whether `c` is one of the registered countries.
pub open spec fn country_from(c: Country, s: Seq<Country>) -> bool {
    exists|j: int| 0 <= j < s.len() && #[trigger] s[j] == c
}

fn sort_countries_by_name(v: Vec<Country>, from: Ghost<Seq<Country>>) -> (r: Vec<Country>)
    requires
        forall|i: int| 0 <= i < v@.len() ==> country_from(#[trigger] v@[i], from@),
    ensures
        r@.len() == v@.len(),
        r@.to_multiset() == v@.to_multiset(),
        forall|a: int, b: int|
            0 <= a < b < r@.len() ==> lex_le((#[trigger] r@[a]).name@, (#[trigger] r@[b]).name@),
        forall|i: int| 0 <= i < r@.len() ==> country_from(#[trigger] r@[i], from@),
{
    let ghost orig = v@;
    let mut src = v;
    let mut out: Vec<Country> = Vec::new();
    let ghost total = src@.len() + out@.len();
    proof {
        broadcast use vstd::multiset::group_multiset_axioms;

        out@.to_multiset_ensures();
        assert(out@.to_multiset().len() == 0);
        assert(out@.to_multiset().add(src@.to_multiset()) =~= src@.to_multiset());
    }
    while src.len() > 0
        invariant
            out@.len() + src@.len() == total,
            total == orig.len(),
            out@.to_multiset().add(src@.to_multiset()) == orig.to_multiset(),
            forall|a: int, b: int|
                0 <= a < b < out@.len() ==> lex_le(
                    (#[trigger] out@[a]).name@,
                    (#[trigger] out@[b]).name@,
                ),
            forall|a: int, b: int|
                0 <= a < out@.len() && 0 <= b < src@.len() ==> lex_le(
                    (#[trigger] out@[a]).name@,
                    (#[trigger] src@[b]).name@,
                ),
            forall|i: int| 0 <= i < out@.len() ==> country_from(#[trigger] out@[i], from@),
            forall|i: int| 0 <= i < src@.len() ==> country_from(#[trigger] src@[i], from@),
        decreases src@.len(),
    {
        let mut best: usize = 0;
        let mut i: usize = 1;
        let n = src.len();
        proof {
            lemma_lex_refl(src@[0].name@);
        }
        while i < n
            invariant
                n == src@.len(),
                1 <= i <= n,
                best < i,
                forall|k: int|
                    0 <= k < i ==> lex_le(src@[best as int].name@, (#[trigger] src@[k]).name@),
            decreases n - i,
        {
            if str_le(src[i].name.as_str(), src[best].name.as_str()) && !str_le(
                src[best].name.as_str(),
                src[i].name.as_str(),
            ) {
                let ghost old_best = best as int;
                best = i;
                proof {
                    lemma_lex_refl(src@[i as int].name@);
                    assert forall|k: int| 0 <= k < i + 1 implies lex_le(
                        src@[best as int].name@,
                        (#[trigger] src@[k]).name@,
                    ) by {
                        if k < i {
                            lemma_lex_trans(
                                src@[best as int].name@,
                                src@[old_best].name@,
                                src@[k].name@,
                            );
                        }
                    }
                }
            } else {
                proof {
                    lemma_lex_total(src@[best as int].name@, src@[i as int].name@);
                }
            }
            i = i + 1;
        }
        let ghost spre = src@;
        let ghost opre = out@;
        let e = src.remove(best);
        proof {
            spre.remove_ensures(best as int);
            assert(country_from(spre[best as int], from@));
        }
        out.push(e);
        proof {
            broadcast use vstd::multiset::group_multiset_axioms;

            spre.to_multiset_ensures();
            opre.to_multiset_ensures();
            assert(spre.contains(e));
            assert(src@.to_multiset() =~= spre.to_multiset().remove(e));
            assert(out@.to_multiset() =~= opre.to_multiset().insert(e));
            assert(out@.to_multiset().add(src@.to_multiset()) =~= opre.to_multiset().add(
                spre.to_multiset(),
            ));
            assert forall|i0: int| 0 <= i0 < src@.len() implies country_from(
                #[trigger] src@[i0],
                from@,
            ) by {
                let j0 = if i0 < best {
                    i0
                } else {
                    i0 + 1
                };
                assert(src@[i0] == spre[j0]);
            }
            assert forall|b: int| 0 <= b < src@.len() implies lex_le(
                out@.last().name@,
                (#[trigger] src@[b]).name@,
            ) by {
                let j0 = if b < best {
                    b
                } else {
                    b + 1
                };
                assert(src@[b] == spre[j0]);
            }
        }
    }
    proof {
        broadcast use vstd::multiset::group_multiset_axioms;

        src@.to_multiset_ensures();
        assert(src@.to_multiset().len() == 0);
        assert(out@.to_multiset() =~= out@.to_multiset().add(src@.to_multiset()));
    }
    out
}

} // verus!
