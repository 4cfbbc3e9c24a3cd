//! Immutable reference data: country metadata and the address ranges
//! registered for each country.

use vstd::prelude::*;
use vstd::string::StringExecFns;

verus! {

/// Display and locale metadata of one country. Loaded once, never mutated.
pub struct Country {
    pub code: String,
    pub name: String,
    pub flag: String,
    pub timezone: String,
    pub language: String,
    pub currency: String,
    pub is_top: bool,
}

impl Country {
    /// A field-for-field copy.
    pub fn duplicate(&self) -> (r: Country)
        ensures
            r == *self,
    {
        Country {
            code: self.code.clone(),
            name: self.name.clone(),
            flag: self.flag.clone(),
            timezone: self.timezone.clone(),
            language: self.language.clone(),
            currency: self.currency.clone(),
            is_top: self.is_top,
        }
    }
}

/// One block of addresses registered for a country, stored as an inclusive
/// numeric interval. The first address of a block of four or more is its
/// network address and the last its broadcast address; neither is handed out.
pub struct AddressRange {
    pub country_code: String,
    pub first: u32,
    pub last: u32,
}

impl AddressRange {
    /// A range is well formed when its interval is non-empty.
    pub open spec fn wf(self) -> bool {
        self.first <= self.last
    }

    /// How many addresses the interval covers.
    pub open spec fn span(self) -> int {
        self.last - self.first + 1
    }

    /// How many addresses may be handed out: the network and broadcast
    /// addresses are reserved in blocks large enough to have them.
    pub open spec fn usable_count(self) -> int {
        if self.span() >= 4 {
            self.span() - 2
        } else {
            self.span()
        }
    }

    /// Whether `a` may be handed out of this range.
    pub open spec fn usable(self, a: u32) -> bool {
        if self.span() >= 4 {
            self.first < a && a < self.last
        } else {
            self.first <= a && a <= self.last
        }
    }

    /// A field-for-field copy.
    pub fn duplicate(&self) -> (r: AddressRange)
        ensures
            r == *self,
    {
        AddressRange { country_code: self.country_code.clone(), first: self.first, last: self.last }
    }

    /// A well-formed range always has something to hand out.
    pub proof fn lemma_wf_usable_nonzero(self)
        requires
            self.wf(),
        ensures
            self.usable_count() >= 1,
    {
    }

    /// An address counted as usable lies inside the interval.
    pub proof fn lemma_usable_in_interval(self, a: u32)
        requires
            self.usable(a),
        ensures
            self.first <= a && a <= self.last,
    {
    }
}

/// `2^k` for small exponents, used to size CIDR blocks.
pub open spec fn two_pow(k: nat) -> int
    decreases k,
{
    if k == 0 {
        1
    } else {
        2 * two_pow((k - 1) as nat)
    }
}

/// Build the range of a CIDR block `base/prefix`. Returns `None` when the
/// block overruns the 32-bit address space.
pub fn range_from_cidr(country_code: String, base: u32, prefix: u8) -> (r: Option<AddressRange>)
    requires
        prefix <= 32,
    ensures
        match r {
            Some(rg) => {
                &&& rg.country_code == country_code
                &&& rg.first == base
                &&& rg.span() == two_pow((32 - prefix) as nat)
                &&& rg.wf()
            },
            None => base + two_pow((32 - prefix) as nat) > 0x100000000,
        },
{
    let width: u8 = 32 - prefix;
    let mut size: u64 = 1;
    let mut i: u8 = 0;
    while i < width
        invariant
            i <= width,
            width <= 32,
            size == two_pow(i as nat),
            size <= 0x100000000u64,
        decreases width - i,
    {
        proof {
            lemma_two_pow_bound((i + 1) as nat);
        }
        size = size * 2;
        i = i + 1;
    }
    proof {
        lemma_two_pow_positive(width as nat);
    }
    let span_minus_one: u64 = size - 1;
    if (base as u64) + span_minus_one <= 0xffffffffu64 {
        let last: u32 = ((base as u64) + span_minus_one) as u32;
        Some(AddressRange { country_code, first: base, last })
    } else {
        None
    }
}

/// `2^k` stays within a 64-bit word for exponents up to 32.
proof fn lemma_two_pow_bound(k: nat)
    requires
        k <= 32,
    ensures
        two_pow(k) <= 0x100000000,
        two_pow(k) >= 1,
{
    lemma_two_pow_positive(k);
    lemma_two_pow_monotone(k, 32);
    assert(two_pow(32) == 0x100000000) by {
        reveal_with_fuel(two_pow, 33);
    }
}

/// `two_pow` grows with its exponent.
proof fn lemma_two_pow_monotone(a: nat, b: nat)
    requires
        a <= b,
    ensures
        two_pow(a) <= two_pow(b),
    decreases b,
{
    if a < b {
        lemma_two_pow_monotone(a, (b - 1) as nat);
        lemma_two_pow_positive((b - 1) as nat);
    }
}

/// `two_pow` is positive.
proof fn lemma_two_pow_positive(k: nat)
    ensures
        two_pow(k) >= 1,
    decreases k,
{
    if k > 0 {
        lemma_two_pow_positive((k - 1) as nat);
    }
}

} // verus!
