//! Interface language selection.
//!
//! The core only picks and names the locale; the message catalog that turns
//! ids into display strings is an opaque string source the host supplies.

use vstd::prelude::*;
use vstd::string::*;

verus! {

/// Supported interface languages.
#[derive(Debug, Clone, Copy, PartialEq, Eq, Structural)]
pub enum Locale {
    En,
    ZhCn,
}

/// A locale tag asks for Chinese: it starts with "zh" in either case. This
/// matches lowercasing the tag and testing the "zh" prefix, since no other
/// character lowercases to a plain `z` or `h`.
pub open spec fn spec_tag_is_zh(t: Seq<char>) -> bool {
    t.len() >= 2 && (t[0] == 'z' || t[0] == 'Z') && (t[1] == 'h' || t[1] == 'H')
}

/// The locale a system tag selects.
pub open spec fn spec_locale_for_tag(t: Seq<char>) -> Locale {
    if spec_tag_is_zh(t) {
        Locale::ZhCn
    } else {
        Locale::En
    }
}

/// Relies on sys_locale::get_locale: the system's locale tag, when one can
/// be determined. The result depends on the environment, so nothing is
/// promised of it.
#[verifier::external_body]
fn system_locale_tag() -> (r: Option<String>) {
    sys_locale::get_locale()
}

impl Locale {
    /// Display name of the language.
    pub fn label(&self) -> (r: &'static str)
        ensures
            (*self == Locale::En) ==> r@ == "English"@,
            (*self == Locale::ZhCn) ==> r@ == "Chinese"@,
    {
        match self {
            Locale::En => "English",
            Locale::ZhCn => "Chinese",
        }
    }

    /// The language identifier tag of the locale, as the message catalog
    /// expects it.
    pub fn lang_tag(&self) -> (r: &'static str)
        ensures
            (*self == Locale::En) ==> r@ == "en"@,
            (*self == Locale::ZhCn) ==> r@ == "zh-CN"@,
    {
        match self {
            Locale::En => "en",
            Locale::ZhCn => "zh-CN",
        }
    }

    /// The locale a system tag selects: Chinese for a tag opening with "zh"
    /// in any case, English otherwise.
    pub fn locale_for_tag(tag: &str) -> (r: Locale)
        ensures
            r == spec_locale_for_tag(tag@),
    {
        let n = tag.unicode_len();
        if n < 2 {
            return Locale::En;
        }
        let c0 = tag.get_char(0);
        let c1 = tag.get_char(1);
        if (c0 == 'z' || c0 == 'Z') && (c1 == 'h' || c1 == 'H') {
            Locale::ZhCn
        } else {
            Locale::En
        }
    }

    /// Detects the best locale from the system language setting; English
    /// when none can be determined. The verified selection rule is
    /// [`Locale::locale_for_tag`]; which tag the machine reports is the
    /// environment's business.
    pub fn from_system() -> (r: Locale)
    {
        match system_locale_tag() {
            Some(tag) => Locale::locale_for_tag(tag.as_str()),
            None => Locale::En,
        }
    }
}

} // verus!
