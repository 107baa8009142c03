//! The closed set of supported ISO-4217 currency codes, with
//! case-insensitive lookup from their three-letter forms.

use crate::error::Error;
use vstd::prelude::*;
use vstd::string::StrSliceExecFns;

verus! {

/// An ISO-4217 currency code reported by the European Central Bank's
/// exchange-rate feed. The euro is the reference currency: every published
/// rate is expressed relative to it.
#[derive(Clone, Copy, Debug, Default, Eq, Hash, PartialEq, Structural)]
pub enum Currency {
    /// The Australian dollar.
    Aud,
    /// The Bulgarian lev.
    Bgn,
    /// The Brazilian real.
    Brl,
    /// The Canadian dollar.
    Cad,
    /// The Swiss franc.
    Chf,
    /// The Chinese yuan.
    Cny,
    /// The Czech koruna.
    Czk,
    /// The Danish krone.
    Dkk,
    /// The euro.
    #[default]
    Eur,
    /// The British pound.
    Gbp,
    /// The Hong Kong dollar.
    Hkd,
    /// The Hungarian forint.
    Huf,
    /// The Indonesian rupiah.
    Idr,
    /// The Israeli shekel.
    Ils,
    /// The Indian rupee.
    Inr,
    /// The Icelandic krona.
    Isk,
    /// The Japanese yen.
    Jpy,
    /// The South Korean won.
    Krw,
    /// The Mexican peso.
    Mxn,
    /// The Malaysian ringgit.
    Myr,
    /// The Norwegian krone.
    Nok,
    /// The New Zealand dollar.
    Nzd,
    /// The Philippine peso.
    Php,
    /// The Polish zloty.
    Pln,
    /// The Romanian leu.
    Ron,
    /// The Russian rouble.
    Rub,
    /// The Swedish krona.
    Sek,
    /// The Singapore dollar.
    Sgd,
    /// The Thai baht.
    Thb,
    /// The Turkish lira.
    Try,
    /// The US dollar.
    Usd,
    /// The South African rand.
    Zar,
}

/// The number of supported currencies.
pub const CURRENCY_COUNT: usize = 32;

/// Whether `c` reads as `code`'s character ignoring case: `code` is an
/// uppercase letter and `c` is that letter in either case.
pub open spec fn char_matches(c: char, code: char) -> bool {
    c == code || (65 <= code as u32 <= 90 && c as u32 == code as u32 + 32)
}

/// Whether `s` spells `code` ignoring case.
pub open spec fn spells(s: Seq<char>, code: Seq<char>) -> bool {
    s.len() == code.len() && forall|i: int| 0 <= i < s.len() ==> char_matches(s[i], #[trigger] code[i])
}

/// The currency whose code `s` spells ignoring case, if any: at most one
/// code can be spelt by a string.
pub open spec fn currency_of(s: Seq<char>) -> Option<Currency> {
    if exists|c: Currency| spells(s, #[trigger] c.code()) {
        Some(choose|c: Currency| spells(s, #[trigger] c.code()))
    } else {
        None
    }
}

/// Codes are uppercase letters.
pub proof fn lemma_codes_upper(c: Currency)
    ensures
        forall|i: int| 0 <= i < c.code().len() ==> 65 <= (#[trigger] c.code()[i]) as u32 <= 90,
{
}

/// A string spells at most one code.
pub proof fn lemma_spells_unique(s: Seq<char>, a: Currency, b: Currency)
    requires
        spells(s, a.code()),
        spells(s, b.code()),
    ensures
        a == b,
{
    lemma_codes_upper(a);
    lemma_codes_upper(b);
    assert forall|i: int| 0 <= i < s.len() implies a.code()[i] == b.code()[i] by {
        assert(char_matches(s[i], a.code()[i]));
        assert(char_matches(s[i], b.code()[i]));
    }
    assert(a.code() =~= b.code());
    assert(a == b);
}

/// A code spells itself.
pub proof fn lemma_code_spells_itself(c: Currency)
    ensures
        spells(c.code(), c.code()),
        currency_of(c.code()) == Some(c),
{
    assert(spells(c.code(), c.code()));
    let w = choose|x: Currency| spells(c.code(), #[trigger] x.code());
    lemma_spells_unique(c.code(), w, c);
}

impl Currency {
    /// The canonical uppercase three-letter code.
    pub open spec fn code(self) -> Seq<char> {
        match self {
            Currency::Aud => seq!['A', 'U', 'D'],
            Currency::Bgn => seq!['B', 'G', 'N'],
            Currency::Brl => seq!['B', 'R', 'L'],
            Currency::Cad => seq!['C', 'A', 'D'],
            Currency::Chf => seq!['C', 'H', 'F'],
            Currency::Cny => seq!['C', 'N', 'Y'],
            Currency::Czk => seq!['C', 'Z', 'K'],
            Currency::Dkk => seq!['D', 'K', 'K'],
            Currency::Eur => seq!['E', 'U', 'R'],
            Currency::Gbp => seq!['G', 'B', 'P'],
            Currency::Hkd => seq!['H', 'K', 'D'],
            Currency::Huf => seq!['H', 'U', 'F'],
            Currency::Idr => seq!['I', 'D', 'R'],
            Currency::Ils => seq!['I', 'L', 'S'],
            Currency::Inr => seq!['I', 'N', 'R'],
            Currency::Isk => seq!['I', 'S', 'K'],
            Currency::Jpy => seq!['J', 'P', 'Y'],
            Currency::Krw => seq!['K', 'R', 'W'],
            Currency::Mxn => seq!['M', 'X', 'N'],
            Currency::Myr => seq!['M', 'Y', 'R'],
            Currency::Nok => seq!['N', 'O', 'K'],
            Currency::Nzd => seq!['N', 'Z', 'D'],
            Currency::Php => seq!['P', 'H', 'P'],
            Currency::Pln => seq!['P', 'L', 'N'],
            Currency::Ron => seq!['R', 'O', 'N'],
            Currency::Rub => seq!['R', 'U', 'B'],
            Currency::Sek => seq!['S', 'E', 'K'],
            Currency::Sgd => seq!['S', 'G', 'D'],
            Currency::Thb => seq!['T', 'H', 'B'],
            Currency::Try => seq!['T', 'R', 'Y'],
            Currency::Usd => seq!['U', 'S', 'D'],
            Currency::Zar => seq!['Z', 'A', 'R'],
        }
    }

    /// A distinct position for each currency, below [`CURRENCY_COUNT`].
    pub open spec fn index_spec(self) -> int {
        match self {
            Currency::Aud => 0,
            Currency::Bgn => 1,
            Currency::Brl => 2,
            Currency::Cad => 3,
            Currency::Chf => 4,
            Currency::Cny => 5,
            Currency::Czk => 6,
            Currency::Dkk => 7,
            Currency::Eur => 8,
            Currency::Gbp => 9,
            Currency::Hkd => 10,
            Currency::Huf => 11,
            Currency::Idr => 12,
            Currency::Ils => 13,
            Currency::Inr => 14,
            Currency::Isk => 15,
            Currency::Jpy => 16,
            Currency::Krw => 17,
            Currency::Mxn => 18,
            Currency::Myr => 19,
            Currency::Nok => 20,
            Currency::Nzd => 21,
            Currency::Php => 22,
            Currency::Pln => 23,
            Currency::Ron => 24,
            Currency::Rub => 25,
            Currency::Sek => 26,
            Currency::Sgd => 27,
            Currency::Thb => 28,
            Currency::Try => 29,
            Currency::Usd => 30,
            Currency::Zar => 31,
        }
    }

    /// The position of this currency in a dense table.
    pub fn index(self) -> (r: usize)
        ensures
            r == self.index_spec(),
            r < CURRENCY_COUNT,
    {
        match self {
            Currency::Aud => 0,
            Currency::Bgn => 1,
            Currency::Brl => 2,
            Currency::Cad => 3,
            Currency::Chf => 4,
            Currency::Cny => 5,
            Currency::Czk => 6,
            Currency::Dkk => 7,
            Currency::Eur => 8,
            Currency::Gbp => 9,
            Currency::Hkd => 10,
            Currency::Huf => 11,
            Currency::Idr => 12,
            Currency::Ils => 13,
            Currency::Inr => 14,
            Currency::Isk => 15,
            Currency::Jpy => 16,
            Currency::Krw => 17,
            Currency::Mxn => 18,
            Currency::Myr => 19,
            Currency::Nok => 20,
            Currency::Nzd => 21,
            Currency::Php => 22,
            Currency::Pln => 23,
            Currency::Ron => 24,
            Currency::Rub => 25,
            Currency::Sek => 26,
            Currency::Sgd => 27,
            Currency::Thb => 28,
            Currency::Try => 29,
            Currency::Usd => 30,
            Currency::Zar => 31,
        }
    }

    /// The canonical uppercase string form of the code.
    pub fn as_str(self) -> (r: &'static str)
        ensures
            r@ == self.code(),
    {
        match self {
            Currency::Aud => {
                proof {
                    reveal_strlit("AUD");
                    assert("AUD"@ =~= seq!['A', 'U', 'D']);
                }
                "AUD"
            },
            Currency::Bgn => {
                proof {
                    reveal_strlit("BGN");
                    assert("BGN"@ =~= seq!['B', 'G', 'N']);
                }
                "BGN"
            },
            Currency::Brl => {
                proof {
                    reveal_strlit("BRL");
                    assert("BRL"@ =~= seq!['B', 'R', 'L']);
                }
                "BRL"
            },
            Currency::Cad => {
                proof {
                    reveal_strlit("CAD");
                    assert("CAD"@ =~= seq!['C', 'A', 'D']);
                }
                "CAD"
            },
            Currency::Chf => {
                proof {
                    reveal_strlit("CHF");
                    assert("CHF"@ =~= seq!['C', 'H', 'F']);
                }
                "CHF"
            },
            Currency::Cny => {
                proof {
                    reveal_strlit("CNY");
                    assert("CNY"@ =~= seq!['C', 'N', 'Y']);
                }
                "CNY"
            },
            Currency::Czk => {
                proof {
                    reveal_strlit("CZK");
                    assert("CZK"@ =~= seq!['C', 'Z', 'K']);
                }
                "CZK"
            },
            Currency::Dkk => {
                proof {
                    reveal_strlit("DKK");
                    assert("DKK"@ =~= seq!['D', 'K', 'K']);
                }
                "DKK"
            },
            Currency::Eur => {
                proof {
                    reveal_strlit("EUR");
                    assert("EUR"@ =~= seq!['E', 'U', 'R']);
                }
                "EUR"
            },
            Currency::Gbp => {
                proof {
                    reveal_strlit("GBP");
                    assert("GBP"@ =~= seq!['G', 'B', 'P']);
                }
                "GBP"
            },
            Currency::Hkd => {
                proof {
                    reveal_strlit("HKD");
                    assert("HKD"@ =~= seq!['H', 'K', 'D']);
                }
                "HKD"
            },
            Currency::Huf => {
                proof {
                    reveal_strlit("HUF");
                    assert("HUF"@ =~= seq!['H', 'U', 'F']);
                }
                "HUF"
            },
            Currency::Idr => {
                proof {
                    reveal_strlit("IDR");
                    assert("IDR"@ =~= seq!['I', 'D', 'R']);
                }
                "IDR"
            },
            Currency::Ils => {
                proof {
                    reveal_strlit("ILS");
                    assert("ILS"@ =~= seq!['I', 'L', 'S']);
                }
                "ILS"
            },
            Currency::Inr => {
                proof {
                    reveal_strlit("INR");
                    assert("INR"@ =~= seq!['I', 'N', 'R']);
                }
                "INR"
            },
            Currency::Isk => {
                proof {
                    reveal_strlit("ISK");
                    assert("ISK"@ =~= seq!['I', 'S', 'K']);
                }
                "ISK"
            },
            Currency::Jpy => {
                proof {
                    reveal_strlit("JPY");
                    assert("JPY"@ =~= seq!['J', 'P', 'Y']);
                }
                "JPY"
            },
            Currency::Krw => {
                proof {
                    reveal_strlit("KRW");
                    assert("KRW"@ =~= seq!['K', 'R', 'W']);
                }
                "KRW"
            },
            Currency::Mxn => {
                proof {
                    reveal_strlit("MXN");
                    assert("MXN"@ =~= seq!['M', 'X', 'N']);
                }
                "MXN"
            },
            Currency::Myr => {
                proof {
                    reveal_strlit("MYR");
                    assert("MYR"@ =~= seq!['M', 'Y', 'R']);
                }
                "MYR"
            },
            Currency::Nok => {
                proof {
                    reveal_strlit("NOK");
                    assert("NOK"@ =~= seq!['N', 'O', 'K']);
                }
                "NOK"
            },
            Currency::Nzd => {
                proof {
                    reveal_strlit("NZD");
                    assert("NZD"@ =~= seq!['N', 'Z', 'D']);
                }
                "NZD"
            },
            Currency::Php => {
                proof {
                    reveal_strlit("PHP");
                    assert("PHP"@ =~= seq!['P', 'H', 'P']);
                }
                "PHP"
            },
            Currency::Pln => {
                proof {
                    reveal_strlit("PLN");
                    assert("PLN"@ =~= seq!['P', 'L', 'N']);
                }
                "PLN"
            },
            Currency::Ron => {
                proof {
                    reveal_strlit("RON");
                    assert("RON"@ =~= seq!['R', 'O', 'N']);
                }
                "RON"
            },
            Currency::Rub => {
                proof {
                    reveal_strlit("RUB");
                    assert("RUB"@ =~= seq!['R', 'U', 'B']);
                }
                "RUB"
            },
            Currency::Sek => {
                proof {
                    reveal_strlit("SEK");
                    assert("SEK"@ =~= seq!['S', 'E', 'K']);
                }
                "SEK"
            },
            Currency::Sgd => {
                proof {
                    reveal_strlit("SGD");
                    assert("SGD"@ =~= seq!['S', 'G', 'D']);
                }
                "SGD"
            },
            Currency::Thb => {
                proof {
                    reveal_strlit("THB");
                    assert("THB"@ =~= seq!['T', 'H', 'B']);
                }
                "THB"
            },
            Currency::Try => {
                proof {
                    reveal_strlit("TRY");
                    assert("TRY"@ =~= seq!['T', 'R', 'Y']);
                }
                "TRY"
            },
            Currency::Usd => {
                proof {
                    reveal_strlit("USD");
                    assert("USD"@ =~= seq!['U', 'S', 'D']);
                }
                "USD"
            },
            Currency::Zar => {
                proof {
                    reveal_strlit("ZAR");
                    assert("ZAR"@ =~= seq!['Z', 'A', 'R']);
                }
                "ZAR"
            },
        }
    }

    /// The currency whose code `s` spells ignoring case, if any.
    pub fn reverse_lookup(s: &str) -> (r: Option<Currency>)
        ensures
            r == currency_of(s@),
            match r {
                Some(c) => spells(s@, c.code()),
                None => forall|c: Currency| !spells(s@, #[trigger] c.code()),
            },
    {
        let r = Self::reverse_lookup_inner(s);
        proof {
            match r {
                Some(c) => {
                    let w = choose|x: Currency| spells(s@, #[trigger] x.code());
                    lemma_spells_unique(s@, w, c);
                },
                None => {},
            }
        }
        r
    }

    /// The dispatch over the closed code set.
    fn reverse_lookup_inner(s: &str) -> (r: Option<Currency>)
        ensures
            match r {
                Some(c) => spells(s@, c.code()),
                None => forall|c: Currency| !spells(s@, #[trigger] c.code()),
            },
    {
        if s.unicode_len() != 3 {
            return None;
        }
        let c0 = s.get_char(0);
        let c1 = s.get_char(1);
        let c2 = s.get_char(2);
        proof {
            assert(forall|c: Currency| (#[trigger] c.code()).len() == 3);
        }
        if match3(c0, c1, c2, 'A', 'U', 'D') {
            Some(Currency::Aud)
        } else if match3(c0, c1, c2, 'B', 'G', 'N') {
            Some(Currency::Bgn)
        } else if match3(c0, c1, c2, 'B', 'R', 'L') {
            Some(Currency::Brl)
        } else if match3(c0, c1, c2, 'C', 'A', 'D') {
            Some(Currency::Cad)
        } else if match3(c0, c1, c2, 'C', 'H', 'F') {
            Some(Currency::Chf)
        } else if match3(c0, c1, c2, 'C', 'N', 'Y') {
            Some(Currency::Cny)
        } else if match3(c0, c1, c2, 'C', 'Z', 'K') {
            Some(Currency::Czk)
        } else if match3(c0, c1, c2, 'D', 'K', 'K') {
            Some(Currency::Dkk)
        } else if match3(c0, c1, c2, 'E', 'U', 'R') {
            Some(Currency::Eur)
        } else if match3(c0, c1, c2, 'G', 'B', 'P') {
            Some(Currency::Gbp)
        } else if match3(c0, c1, c2, 'H', 'K', 'D') {
            Some(Currency::Hkd)
        } else if match3(c0, c1, c2, 'H', 'U', 'F') {
            Some(Currency::Huf)
        } else if match3(c0, c1, c2, 'I', 'D', 'R') {
            Some(Currency::Idr)
        } else if match3(c0, c1, c2, 'I', 'L', 'S') {
            Some(Currency::Ils)
        } else if match3(c0, c1, c2, 'I', 'N', 'R') {
            Some(Currency::Inr)
        } else if match3(c0, c1, c2, 'I', 'S', 'K') {
            Some(Currency::Isk)
        } else if match3(c0, c1, c2, 'J', 'P', 'Y') {
            Some(Currency::Jpy)
        } else if match3(c0, c1, c2, 'K', 'R', 'W') {
            Some(Currency::Krw)
        } else if match3(c0, c1, c2, 'M', 'X', 'N') {
            Some(Currency::Mxn)
        } else if match3(c0, c1, c2, 'M', 'Y', 'R') {
            Some(Currency::Myr)
        } else if match3(c0, c1, c2, 'N', 'O', 'K') {
            Some(Currency::Nok)
        } else if match3(c0, c1, c2, 'N', 'Z', 'D') {
            Some(Currency::Nzd)
        } else if match3(c0, c1, c2, 'P', 'H', 'P') {
            Some(Currency::Php)
        } else if match3(c0, c1, c2, 'P', 'L', 'N') {
            Some(Currency::Pln)
        } else if match3(c0, c1, c2, 'R', 'O', 'N') {
            Some(Currency::Ron)
        } else if match3(c0, c1, c2, 'R', 'U', 'B') {
            Some(Currency::Rub)
        } else if match3(c0, c1, c2, 'S', 'E', 'K') {
            Some(Currency::Sek)
        } else if match3(c0, c1, c2, 'S', 'G', 'D') {
            Some(Currency::Sgd)
        } else if match3(c0, c1, c2, 'T', 'H', 'B') {
            Some(Currency::Thb)
        } else if match3(c0, c1, c2, 'T', 'R', 'Y') {
            Some(Currency::Try)
        } else if match3(c0, c1, c2, 'U', 'S', 'D') {
            Some(Currency::Usd)
        } else if match3(c0, c1, c2, 'Z', 'A', 'R') {
            Some(Currency::Zar)
        } else {
            None
        }
    }
}

/// Whether three characters spell an uppercase triple ignoring case.
fn match3(c0: char, c1: char, c2: char, u0: char, u1: char, u2: char) -> (r: bool)
    ensures
        r == (char_matches(c0, u0) && char_matches(c1, u1) && char_matches(c2, u2)),
{
    char_match(c0, u0) && char_match(c1, u1) && char_match(c2, u2)
}

/// Whether `c` reads as the uppercase letter `u` ignoring case.
fn char_match(c: char, u: char) -> (r: bool)
    ensures
        r == char_matches(c, u),
{
    let uc = u as u32;
    c == u || (65 <= uc && uc <= 90 && c as u32 == uc + 32)
}

impl core::str::FromStr for Currency {
    type Err = Error;

    fn from_str(s: &str) -> Result<Currency, Error> {
        match Currency::reverse_lookup(s) {
            Some(c) => Ok(c),
            None => Err(Error::UnsupportedCurrency(s.to_owned())),
        }
    }
}

} // verus!
