//! A small semantic version of the form `major.minor.patch`, used to lock in the
//! format and binary version of workflow files.

use vstd::prelude::*;
use crate::text::{after_first, before_first, chars_of, join2, split_once};

verus! {

/// A semantic version.
#[derive(Debug, Clone, Copy, PartialEq, Eq, PartialOrd, Ord, Structural)]
pub struct Semver {
    pub major: u8,
    pub minor: u8,
    pub patch: u8,
}

/// The value of a string of decimal digits.
pub open spec fn decimal(s: Seq<char>) -> nat
    decreases s.len(),
{
    if s.len() == 0 {
        0
    } else {
        decimal(s.drop_last()) * 10 + ((s.last() as u32) - ('0' as u32)) as nat
    }
}

pub open spec fn all_digits(s: Seq<char>) -> bool {
    forall|i: int| 0 <= i < s.len() ==> '0' <= #[trigger] s[i] && s[i] <= '9'
}

/// A `u8` read as `u8::from_str` documents it: an optional `+`, then one or more
/// decimal digits, of a value that fits.
pub open spec fn parse_u8(s: Seq<char>) -> Option<u8> {
    let d = if s.len() > 0 && s[0] == '+' { s.drop_first() } else { s };
    if d.len() == 0 || !all_digits(d) || decimal(d) > 255 {
        None
    } else {
        Some(decimal(d) as u8)
    }
}

proof fn lemma_decimal_grows(s: Seq<char>, k: int)
    requires
        0 <= k <= s.len(),
        all_digits(s),
    ensures
        decimal(s.take(k)) <= decimal(s),
    decreases s.len() - k,
{
    if k < s.len() {
        lemma_decimal_grows(s.drop_last(), k);
        assert(s.drop_last().take(k) =~= s.take(k));
        assert(all_digits(s.drop_last()));
    } else {
        assert(s.take(k) =~= s);
    }
}

/// Read a `u8`.
pub fn read_u8(s: &str) -> (r: Option<u8>)
    ensures
        r == parse_u8(s@),
{
    let v = chars_of(s);
    let start: usize = if v.len() > 0 && v[0] == '+' {
        1
    } else {
        0
    };
    let ghost d = if s@.len() > 0 && s@[0] == '+' { s@.drop_first() } else { s@ };
    assert(d =~= v@.skip(start as int));
    assert(parse_u8(s@) == (if d.len() == 0 || !all_digits(d) || decimal(d) > 255 { None } else { Some(decimal(d) as u8) }));
    if start == v.len() {
        return None;
    }
    let mut acc: u32 = 0;
    let mut k: usize = start;
    while k < v.len()
        invariant
            v@ == s@,
            parse_u8(s@) == (if d.len() == 0 || !all_digits(d) || decimal(d) > 255 { None } else { Some(decimal(d) as u8) }),
            start <= k <= v@.len(),
            d =~= v@.skip(start as int),
            all_digits(d.take(k - start)),
            acc as nat == decimal(d.take(k - start)),
            acc <= 255,
        decreases v@.len() - k,
    {
        let c = v[k];
        if !('0' <= c && c <= '9') {
            proof {
                assert(d[k - start] == c);
                assert(!all_digits(d));
            }
            return None;
        }
        let digit = (c as u32) - ('0' as u32);
        proof {
            assert(d.take(k - start + 1).drop_last() =~= d.take(k - start));
            assert(d.take(k - start + 1).last() == c);
        }
        let next = acc * 10 + digit;
        if next > 255 {
            proof {
                let t = d.take(k - start + 1);
                assert(t.last() == c);
                assert(decimal(t) == decimal(t.drop_last()) * 10 + ((c as u32) - ('0' as u32)) as nat);
                assert(decimal(t) == next);
                if all_digits(d) {
                    lemma_decimal_grows(d, k - start + 1);
                }
                assert(parse_u8(s@) is None);
            }
            return None;
        }
        acc = next;
        k = k + 1;
    }
    assert(d.take(k - start) =~= d);
    Some(acc as u8)
}

/// The character of a decimal digit.
pub open spec fn dchar(d: int) -> char {
    if d == 0 { '0' } else if d == 1 { '1' } else if d == 2 { '2' } else if d == 3 { '3' } else if d == 4 { '4' }
    else if d == 5 { '5' } else if d == 6 { '6' } else if d == 7 { '7' } else if d == 8 { '8' } else { '9' }
}

pub fn digit_char(d: u8) -> (r: char)
    ensures
        r == dchar(d as int),
{
    if d == 0 { '0' } else if d == 1 { '1' } else if d == 2 { '2' } else if d == 3 { '3' } else if d == 4 { '4' }
    else if d == 5 { '5' } else if d == 6 { '6' } else if d == 7 { '7' } else if d == 8 { '8' } else { '9' }
}

/// The decimal digits of `n`.
pub open spec fn digits_of(n: nat) -> Seq<char>
    decreases n,
{
    if n < 10 {
        seq![dchar(n as int)]
    } else {
        digits_of(n / 10) + seq![dchar((n % 10) as int)]
    }
}

/// The decimal text of `n`.
pub fn u8_text(n: u8) -> (r: String)
    ensures
        r@ == digits_of(n as nat),
{
    let mut out: Vec<char> = Vec::new();
    if n >= 100 {
        out.push(digit_char(n / 100));
    }
    if n >= 10 {
        out.push(digit_char((n / 10) % 10));
    }
    out.push(digit_char(n % 10));
    proof {
        if n >= 100 {
            assert(digits_of((n / 10) as nat) == digits_of((n / 100) as nat) + seq![dchar(((n / 10) % 10) as int)]);
            assert(digits_of((n / 100) as nat) == seq![dchar((n / 100) as int)]);
        } else if n >= 10 {
            assert(digits_of((n / 10) as nat) == seq![dchar((n / 10) as int)]);
        }
    }
    assert(out@ =~= digits_of(n as nat));
    crate::text::string_of(&out)
}

/// The version that `s` names: `major[.minor[.patch]]`, missing parts being zero
/// and further parts ignored.
pub open spec fn parse_semver(s: Seq<char>) -> Option<Semver> {
    let p0 = before_first(s, '.');
    let r1 = after_first(s, '.');
    let p1 = before_first(r1, '.');
    let p2 = before_first(after_first(r1, '.'), '.');
    let major = parse_u8(p0);
    let minor = if s.contains('.') { parse_u8(p1) } else { Some(0u8) };
    let patch = if s.contains('.') && r1.contains('.') { parse_u8(p2) } else { Some(0u8) };
    match (major, minor, patch) {
        (Some(a), Some(b), Some(c)) => Some(Semver { major: a, minor: b, patch: c }),
        _ => None,
    }
}

impl Semver {
    /// The version of the three numbers.
    pub fn from_parts(major: u8, minor: u8, patch: u8) -> (r: Semver)
        ensures
            r == (Semver { major, minor, patch }),
    {
        Semver { major, minor, patch }
    }

    /// Parse `major[.minor[.patch]]`.
    pub fn parse(s: &str) -> (r: Option<Semver>)
        ensures
            r == parse_semver(s@),
    {
        let (p0, r1) = match split_once(s, '.') {
            Some((a, b)) => (a, Some(b)),
            None => (s.to_owned(), None),
        };
        let major = read_u8(p0.as_str());
        let (minor, patch) = match r1 {
            None => (Some(0u8), Some(0u8)),
            Some(r1) => {
                let (p1, r2) = match split_once(r1.as_str(), '.') {
                    Some((a, b)) => (a, Some(b)),
                    None => (r1.clone(), None),
                };
                let minor = read_u8(p1.as_str());
                let patch = match r2 {
                    None => Some(0u8),
                    Some(r2) => {
                        let p2 = match split_once(r2.as_str(), '.') {
                            Some((a, _)) => a,
                            None => r2,
                        };
                        read_u8(p2.as_str())
                    },
                };
                (minor, patch)
            },
        };
        match (major, minor, patch) {
            (Some(a), Some(b), Some(c)) => Some(Semver { major: a, minor: b, patch: c }),
            _ => None,
        }
    }

    /// Parse `major[.minor[.patch]]`; `Err` when it is no version.
    pub fn try_from(s: &str) -> (r: Result<Semver, ()>)
        ensures
            match r {
                Ok(v) => parse_semver(s@) == Some(v),
                Err(_) => parse_semver(s@) is None,
            },
    {
        match Semver::parse(s) {
            Some(v) => Ok(v),
            None => Err(()),
        }
    }

    /// `major.minor.patch`.
    pub fn to_string(&self) -> (r: String)
        ensures
            r@ == digits_of(self.major as nat) + "."@ + digits_of(self.minor as nat) + "."@ + digits_of(self.patch as nat),
    {
        let a = u8_text(self.major);
        let b = u8_text(self.minor);
        let c = u8_text(self.patch);
        let s = join2(a.as_str(), ".");
        let s = join2(s.as_str(), b.as_str());
        let s = join2(s.as_str(), ".");
        join2(s.as_str(), c.as_str())
    }

    /// Whether `self` is at least `other`, comparing major, then minor, then patch.
    pub open spec fn is_newer_or_equal_spec(&self, other: Self) -> bool {
        self.major > other.major || (self.major == other.major && (self.minor > other.minor || (self.minor
            == other.minor && self.patch >= other.patch)))
    }

    /// Whether `self` is at least `other`, comparing major, then minor, then patch.
    pub fn is_newer_or_equal(&self, other: &Self) -> (r: bool)
        ensures
            r == self.is_newer_or_equal_spec(*other),
            r == (self.major > other.major || (self.major == other.major && (self.minor > other.minor || (
            self.minor == other.minor && self.patch >= other.patch)))),
    {
        self.major > other.major || (self.major == other.major && (self.minor > other.minor || (self.minor
            == other.minor && self.patch >= other.patch)))
    }
}


impl From<(u8, u8, u8)> for Semver {
    fn from(t: (u8, u8, u8)) -> (r: Semver) {
        Semver { major: t.0, minor: t.1, patch: t.2 }
    }
}

impl vstd::std_specs::convert::FromSpecImpl<(u8, u8, u8)> for Semver {
    open spec fn obeys_from_spec() -> bool {
        true
    }

    open spec fn from_spec(t: (u8, u8, u8)) -> Semver {
        Semver { major: t.0, minor: t.1, patch: t.2 }
    }
}

} // verus!
