//! YUM configuration variables: given the values of `$arch`, `$basearch`
//! and `$releasever`, substitutes them into repository base URLs, and the
//! pure derivations behind those values — the base architecture of a CPU
//! architecture name, and the release version read out of a
//! `name-version-release` package string. Obtaining the raw facts (the
//! machine's architecture, the installed release package) is the
//! caller's affair.
use vstd::prelude::*;

use crate::text::{chars_to_string, copy_range, find_char, find_from, str_eq, str_to_chars};

verus! {

/// Replacement of every occurrence of `pat`, scanning left to right over
/// non-overlapping matches; an empty pattern replaces nothing.
pub open spec fn spec_replace(s: Seq<char>, pat: Seq<char>, rep: Seq<char>) -> Seq<char>
    decreases s.len(),
{
    if pat.len() == 0 || s.len() < pat.len() {
        s
    } else if s.take(pat.len() as int) == pat {
        rep + spec_replace(s.skip(pat.len() as int), pat, rep)
    } else {
        seq![s[0]] + spec_replace(s.drop_first(), pat, rep)
    }
}

/// Relies on `str::replace`: every non-overlapping occurrence of the
/// pattern, found left to right, is replaced with the replacement.
#[verifier::external_body]
fn replace_str(s: &str, pat: &str, rep: &str) -> (r: String)
    requires
        pat@.len() > 0,
    ensures
        r@ == spec_replace(s@, pat@, rep@),
{
    s.replace(pat, rep)
}

/// The base architecture belonging to a CPU architecture name.
pub open spec fn spec_basearch(arch: Seq<char>) -> Option<Seq<char>> {
    if arch == "i386"@ || arch == "i586"@ || arch == "i686"@ {
        Some("i386"@)
    } else if arch == "x86_64"@ {
        Some("x86_64"@)
    } else {
        None
    }
}

/// A repository base URL with exactly one trailing slash ensured, as the
/// later join with `repodata/repomd.xml` expects.
pub fn with_trailing_slash(url: &str) -> (r: String)
    ensures
        r@ == if url@.len() > 0 && url@.last() == '/' {
            url@
        } else {
            url@ + "/"@
        },
{
    let n: usize = url.unicode_len();
    if n > 0 && url.get_char(n - 1) == '/' {
        String::from_str(url)
    } else {
        let mut s = String::from_str(url);
        s.append("/");
        s
    }
}

/// The values of the substitutable YUM variables.
pub struct YumVariables {
    arch: String,
    basearch: String,
    releasever: String,
}

pub struct YumVariablesView {
    pub arch: Seq<char>,
    pub basearch: Seq<char>,
    pub releasever: Seq<char>,
}

impl View for YumVariables {
    type V = YumVariablesView;

    closed spec fn view(&self) -> YumVariablesView {
        YumVariablesView {
            arch: self.arch@,
            basearch: self.basearch@,
            releasever: self.releasever@,
        }
    }
}

impl YumVariables {
    pub fn new(arch: String, basearch: String, releasever: String) -> (y: YumVariables)
        ensures
            y@.arch == arch@,
            y@.basearch == basearch@,
            y@.releasever == releasever@,
    {
        YumVariables { arch, basearch, releasever }
    }

    /// Maps an architecture name to its base architecture: the i386 line
    /// folds to `i386`, `x86_64` stands, anything else is unsupported.
    pub fn get_basearch(arch: &str) -> (r: Option<String>)
        ensures
            r is Some <==> spec_basearch(arch@) is Some,
            r is Some ==> r->Some_0@ == spec_basearch(arch@)->Some_0,
    {
        if str_eq(arch, "i386") || str_eq(arch, "i586") || str_eq(arch, "i686") {
            Some(String::from_str("i386"))
        } else if str_eq(arch, "x86_64") {
            Some(String::from_str("x86_64"))
        } else {
            None
        }
    }

    /// Reads `$releasever` out of an installed release package string of
    /// the shape `name-version-release...`: the third dash-separated
    /// field, present exactly when the string holds at least two dashes.
    pub fn releasever_from_release(s: &str) -> (r: Option<String>)
        ensures
            ({
                let d1 = find_from(s@, '-', 0);
                let d2 = find_from(s@, '-', d1 + 1);
                let d3 = find_from(s@, '-', d2 + 1);
                &&& (r is Some <==> d2 < s@.len())
                &&& (r is Some ==> r->Some_0@ == s@.subrange(d2 + 1, d3))
            }),
    {
        let v = str_to_chars(s);
        let d1 = find_char(&v, '-', 0);
        if d1 >= v.len() {
            return None;
        }
        let d2 = find_char(&v, '-', d1 + 1);
        if d2 >= v.len() {
            return None;
        }
        let d3 = find_char(&v, '-', d2 + 1);
        let field = copy_range(&v, d2 + 1, d3);
        Some(chars_to_string(&field))
    }

    /// Substitutes `$arch`, `$basearch` and `$releasever`, in that order,
    /// through the whole string.
    pub fn replace_yum_variables(&self, s: String) -> (r: String)
        ensures
            r@ == spec_replace(
                spec_replace(spec_replace(s@, "$arch"@, self@.arch), "$basearch"@, self@.basearch),
                "$releasever"@,
                self@.releasever,
            ),
    {
        proof {
            reveal_strlit("$arch");
            reveal_strlit("$basearch");
            reveal_strlit("$releasever");
        }
        let r1 = replace_str(s.as_str(), "$arch", self.arch.as_str());
        let r2 = replace_str(r1.as_str(), "$basearch", self.basearch.as_str());
        replace_str(r2.as_str(), "$releasever", self.releasever.as_str())
    }
}

} // verus!
