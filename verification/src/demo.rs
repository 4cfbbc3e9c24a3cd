//! Built-in reference data.
//!
//! The engine must stay usable when no external country or range file is
//! available, so a small synthesized registry can always be constructed.

use vstd::prelude::*;
use vstd::string::StringExecFns;

use crate::country::{AddressRange, Country};
use crate::generator::IPGenerator;

verus! {

/// The built-in country table.
pub struct CountryDatabase {}

fn mk_country(
    code: &str,
    name: &str,
    flag: &str,
    timezone: &str,
    language: &str,
    currency: &str,
    is_top: bool,
) -> (r: Country)
    ensures
        r.code@ == code@,
        r.name@ == name@,
        r.is_top == is_top,
{
    Country {
        code: code.to_owned(),
        name: name.to_owned(),
        flag: flag.to_owned(),
        timezone: timezone.to_owned(),
        language: language.to_owned(),
        currency: currency.to_owned(),
        is_top,
    }
}

fn mk_range(code: &str, first: u32, last: u32) -> (r: AddressRange)
    requires
        first <= last,
    ensures
        r.country_code@ == code@,
        r.first == first,
        r.last == last,
        r.wf(),
{
    AddressRange { country_code: code.to_owned(), first, last }
}

impl CountryDatabase {
    /// The built-in country metadata, one record per supported country.
    pub fn load_all_countries() -> (r: Vec<Country>)
        ensures
            r@.len() == 7,
    {
        let mut out: Vec<Country> = Vec::new();
        out.push(
            mk_country(
                "US",
                "United States",
                "\u{1F1FA}\u{1F1F8}",
                "America/New_York",
                "en-US",
                "USD",
                true,
            ),
        );
        out.push(
            mk_country(
                "GB",
                "United Kingdom",
                "\u{1F1EC}\u{1F1E7}",
                "Europe/London",
                "en-GB",
                "GBP",
                true,
            ),
        );
        out.push(
            mk_country(
                "DE",
                "Germany",
                "\u{1F1E9}\u{1F1EA}",
                "Europe/Berlin",
                "de-DE",
                "EUR",
                true,
            ),
        );
        out.push(
            mk_country(
                "FR",
                "France",
                "\u{1F1EB}\u{1F1F7}",
                "Europe/Paris",
                "fr-FR",
                "EUR",
                false,
            ),
        );
        out.push(
            mk_country("JP", "Japan", "\u{1F1EF}\u{1F1F5}", "Asia/Tokyo", "ja-JP", "JPY", false),
        );
        out.push(
            mk_country(
                "CA",
                "Canada",
                "\u{1F1E8}\u{1F1E6}",
                "America/Toronto",
                "en-CA",
                "CAD",
                false,
            ),
        );
        out.push(
            mk_country(
                "AU",
                "Australia",
                "\u{1F1E6}\u{1F1FA}",
                "Australia/Sydney",
                "en-AU",
                "AUD",
                false,
            ),
        );
        out
    }

    /// The built-in address ranges, two blocks per supported country.
    pub fn load_ip_ranges() -> (r: Vec<AddressRange>)
        ensures
            r@.len() <= 0x10000,
            forall|i: int| 0 <= i < r@.len() ==> (#[trigger] r@[i]).wf(),
            exists|i: int| 0 <= i < r@.len() && (#[trigger] r@[i]).country_code@ == "US"@,
            exists|i: int| 0 <= i < r@.len() && (#[trigger] r@[i]).country_code@ == "GB"@,
            exists|i: int| 0 <= i < r@.len() && (#[trigger] r@[i]).country_code@ == "DE"@,
            exists|i: int| 0 <= i < r@.len() && (#[trigger] r@[i]).country_code@ == "FR"@,
            exists|i: int| 0 <= i < r@.len() && (#[trigger] r@[i]).country_code@ == "JP"@,
            exists|i: int| 0 <= i < r@.len() && (#[trigger] r@[i]).country_code@ == "CA"@,
            exists|i: int| 0 <= i < r@.len() && (#[trigger] r@[i]).country_code@ == "AU"@,
    {
        let mut out: Vec<AddressRange> = Vec::new();
        // 3.0.0.0/9 and 44.192.0.0/10
        out.push(mk_range("US", 0x03000000, 0x037FFFFF));
        out.push(mk_range("US", 0x2CC00000, 0x2CFFFFFF));
        // 25.0.0.0/10 and 51.140.0.0/14
        out.push(mk_range("GB", 0x19000000, 0x193FFFFF));
        out.push(mk_range("GB", 0x338C0000, 0x338FFFFF));
        // 53.0.0.0/10 and 217.64.0.0/13
        out.push(mk_range("DE", 0x35000000, 0x353FFFFF));
        out.push(mk_range("DE", 0xD9400000, 0xD97FFFFF));
        // 90.0.0.0/10 and 193.48.0.0/14
        out.push(mk_range("FR", 0x5A000000, 0x5A3FFFFF));
        out.push(mk_range("FR", 0xC1300000, 0xC133FFFF));
        // 126.0.0.0/10 and 133.0.0.0/10
        out.push(mk_range("JP", 0x7E000000, 0x7E3FFFFF));
        out.push(mk_range("JP", 0x85000000, 0x853FFFFF));
        // 99.224.0.0/11 and 142.88.0.0/13
        out.push(mk_range("CA", 0x63E00000, 0x63FFFFFF));
        out.push(mk_range("CA", 0x8E580000, 0x8E5FFFFF));
        // 1.120.0.0/13 and 101.160.0.0/11
        out.push(mk_range("AU", 0x01780000, 0x017FFFFF));
        out.push(mk_range("AU", 0x65A00000, 0x65BFFFFF));
        proof {
            assert(out@[0].country_code@ == "US"@);
            assert(out@[2].country_code@ == "GB"@);
            assert(out@[4].country_code@ == "DE"@);
            assert(out@[6].country_code@ == "FR"@);
            assert(out@[8].country_code@ == "JP"@);
            assert(out@[10].country_code@ == "CA"@);
            assert(out@[12].country_code@ == "AU"@);
        }
        out
    }
}

/// A generator over the built-in registry, always available.
pub fn demo_generator() -> (r: IPGenerator)
    ensures
        r.wf(),
        r.spec_has_country("US"@),
        r.spec_has_country("GB"@),
        r.spec_has_country("DE"@),
        r.spec_has_country("FR"@),
        r.spec_has_country("JP"@),
        r.spec_has_country("CA"@),
        r.spec_has_country("AU"@),
{
    let countries = CountryDatabase::load_all_countries();
    let ranges = CountryDatabase::load_ip_ranges();
    IPGenerator::new(countries, ranges)
}

} // verus!
