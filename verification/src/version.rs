//! Package versions as dotted numeric triples.

use vstd::prelude::*;
use vstd::string::StringSliceAdditionalSpecFns;

verus! {

/// A package version, modelled as a dotted numeric triple such as `1.2.3`.
/// Versions are ordered lexicographically by (major, minor, patch).
#[derive(Clone, Copy, PartialEq, Eq, Structural, Hash, Debug)]
pub struct Version {
    pub major: u64,
    pub minor: u64,
    pub patch: u64,
}

impl Version {
    /// The strict lexicographic order on versions.
    pub open spec fn lt_spec(self, other: Self) -> bool {
        ||| self.major < other.major
        ||| (self.major == other.major && self.minor < other.minor)
        ||| (self.major == other.major && self.minor == other.minor && self.patch < other.patch)
    }

    pub fn new(major: u64, minor: u64, patch: u64) -> (v: Version)
        ensures
            v == (Version { major, minor, patch }),
    {
        Version { major, minor, patch }
    }

    /// Decides the strict order `self < other`.
    pub fn lt(&self, other: &Version) -> (r: bool)
        ensures
            r == self.lt_spec(*other),
    {
        if self.major != other.major {
            self.major < other.major
        } else if self.minor != other.minor {
            self.minor < other.minor
        } else {
            self.patch < other.patch
        }
    }
}

/// The lexicographic order on versions is transitive.
pub proof fn lemma_version_order_trans(a: Version, b: Version, c: Version)
    requires
        a.lt_spec(b),
        b.lt_spec(c),
    ensures
        a.lt_spec(c),
{
}

/// An ASCII decimal digit.
pub open spec fn is_digit(c: u8) -> bool {
    48 <= c <= 57
}

/// A nonempty run of ASCII decimal digits.
pub open spec fn digits(s: Seq<u8>) -> bool {
    s.len() >= 1 && forall|i: int| 0 <= i < s.len() ==> is_digit(#[trigger] s[i])
}

/// The number a run of decimal digits denotes.
pub open spec fn num_val(s: Seq<u8>) -> int
    decreases s.len(),
{
    if s.len() == 0 {
        0
    } else {
        num_val(s.drop_last()) * 10 + (s.last() - 48)
    }
}

/// The bytes of a version string: three nonempty digit runs, separated by
/// exactly the two dots at `i` and `j`, each run small enough for a `u64`.
pub open spec fn version_bytes(s: Seq<u8>, i: int, j: int) -> bool {
    &&& 1 <= i
    &&& i + 2 <= j
    &&& j + 2 <= s.len()
    &&& s[i] == 46
    &&& s[j] == 46
    &&& forall|k: int| 0 <= k < s.len() && #[trigger] s[k] == 46 ==> k == i || k == j
    &&& digits(s.subrange(0, i))
    &&& digits(s.subrange(i + 1, j))
    &&& digits(s.subrange(j + 1, s.len() as int))
    &&& num_val(s.subrange(0, i)) <= u64::MAX
    &&& num_val(s.subrange(i + 1, j)) <= u64::MAX
    &&& num_val(s.subrange(j + 1, s.len() as int)) <= u64::MAX
}

/// The version a well-formed version string denotes.
pub open spec fn version_value(s: Seq<u8>, i: int, j: int) -> Version {
    Version {
        major: num_val(s.subrange(0, i)) as u64,
        minor: num_val(s.subrange(i + 1, j)) as u64,
        patch: num_val(s.subrange(j + 1, s.len() as int)) as u64,
    }
}

/// Extending a digit run multiplies its value by ten and adds the digit.
proof fn lemma_num_val_push(s: Seq<u8>, c: u8)
    ensures
        num_val(s.push(c)) == num_val(s) * 10 + (c - 48),
{
    assert(s.push(c).drop_last() =~= s);
    assert(s.push(c).last() == c);
}

/// A digit run denotes a number, never something negative.
proof fn lemma_num_val_nonneg(s: Seq<u8>)
    requires
        forall|i: int| 0 <= i < s.len() ==> is_digit(#[trigger] s[i]),
    ensures
        num_val(s) >= 0,
    decreases s.len(),
{
    if s.len() > 0 {
        lemma_num_val_nonneg(s.drop_last());
    }
}

/// A longer digit run denotes at least as large a number.
proof fn lemma_num_val_monotonic(s: Seq<u8>, t: Seq<u8>)
    requires
        s.len() <= t.len(),
        s =~= t.subrange(0, s.len() as int),
        forall|i: int| 0 <= i < t.len() ==> is_digit(#[trigger] t[i]),
    ensures
        num_val(s) <= num_val(t),
    decreases t.len() - s.len(),
{
    if s.len() < t.len() {
        let t1 = t.subrange(0, t.len() - 1);
        assert(s =~= t1.subrange(0, s.len() as int));
        assert forall|i: int| 0 <= i < t1.len() implies is_digit(#[trigger] t1[i]) by {
            assert(t1[i] == t[i]);
        }
        lemma_num_val_monotonic(s, t1);
        assert(t1 =~= t.drop_last());
        assert(num_val(t) == num_val(t1) * 10 + (t.last() - 48));
        lemma_num_val_nonneg(t1);
        assert(num_val(t1) * 10 >= num_val(t1));
        assert(is_digit(t[t.len() - 1]));
        assert(t.last() >= 48);
    } else {
        assert(s =~= t);
    }
}

/// Reads the decimal number written between `start` and `end`, refusing
/// anything that is not a digit run fitting in a `u64`.
fn parse_u64_range(s: &[u8], start: usize, end: usize) -> (r: Option<u64>)
    requires
        start <= end <= s@.len(),
    ensures
        match r {
            Some(v) => digits(s@.subrange(start as int, end as int)) && num_val(
                s@.subrange(start as int, end as int),
            ) == v,
            None => !(digits(s@.subrange(start as int, end as int)) && num_val(
                s@.subrange(start as int, end as int),
            ) <= u64::MAX),
        },
{
    if start == end {
        return None;
    }
    let mut acc: u64 = 0;
    let mut k: usize = start;
    while k < end
        invariant
            start <= k <= end <= s@.len(),
            forall|t: int| start <= t < k ==> is_digit(#[trigger] s@[t]),
            acc == num_val(s@.subrange(start as int, k as int)),
            end > start,
        decreases end - k,
    {
        let c = s[k];
        if c < 48 || c > 57 {
            proof {
                assert(s@.subrange(start as int, end as int)[k - start] == s@[k as int]);
                assert(!is_digit(s@[k as int]));
            }
            return None;
        }
        let d = c - 48;
        let ghost pre = s@.subrange(start as int, k as int);
        proof {
            assert(s@.subrange(start as int, (k + 1) as int) =~= pre.push(s@[k as int]));
            lemma_num_val_push(pre, s@[k as int]);
        }
        if acc > (u64::MAX - (d as u64)) / 10 {
            proof {
                assert(num_val(s@.subrange(start as int, (k + 1) as int)) > u64::MAX) by {
                    assert(acc * 10 + d > u64::MAX) by (nonlinear_arith)
                        requires
                            acc > (u64::MAX - (d as u64)) / 10,
                            d <= 9,
                    {}
                }
                let whole_range = s@.subrange(start as int, end as int);
                if digits(whole_range) {
                    assert(s@.subrange(start as int, (k + 1) as int) =~= whole_range.subrange(
                        0,
                        k + 1 - start,
                    ));
                    assert forall|t: int|
                        0 <= t < whole_range.len() implies is_digit(#[trigger] whole_range[t]) by {}
                    lemma_num_val_monotonic(
                        s@.subrange(start as int, (k + 1) as int),
                        whole_range,
                    );
                }
            }
            return None;
        }
        proof {
            assert(acc * 10 + d <= u64::MAX) by (nonlinear_arith)
                requires
                    acc <= (u64::MAX - (d as u64)) / 10,
                    d <= 9,
            {}
        }
        acc = acc * 10 + (d as u64);
        k += 1;
    }
    proof {
        assert(s@.subrange(start as int, end as int).len() >= 1);
        assert forall|t: int|
            0 <= t < s@.subrange(start as int, end as int).len() implies is_digit(
            #[trigger] s@.subrange(start as int, end as int)[t],
        ) by {
            assert(s@.subrange(start as int, end as int)[t] == s@[start + t]);
        }
    }
    Some(acc)
}

/// A parse error: the string is not a dotted numeric version triple.
#[derive(Clone, Copy, PartialEq, Eq, Structural, Debug)]
pub struct ParseVersionError;

impl Version {
    /// Reads a version written as three dot-separated decimal numbers, such
    /// as `1.2.3`.
    pub fn parse(s: &str) -> (r: Option<Version>)
        ensures
            match r {
                Some(ver) => exists|i: int, j: int|
                    #[trigger] version_bytes(s.spec_bytes(), i, j) && ver == version_value(
                        s.spec_bytes(),
                        i,
                        j,
                    ),
                None => forall|i: int, j: int| !#[trigger] version_bytes(s.spec_bytes(), i, j),
            },
    {
        let b = s.as_bytes_vec();
        Self::parse_bytes(&b)
    }

    /// Reads a version from the bytes of its textual form.
    pub fn parse_bytes(s: &Vec<u8>) -> (r: Option<Version>)
        ensures
            match r {
                Some(ver) => exists|i: int, j: int|
                    #[trigger] version_bytes(s@, i, j) && ver == version_value(s@, i, j),
                None => forall|i: int, j: int| !#[trigger] version_bytes(s@, i, j),
            },
    {
        let n = s.len();
        let mut ndots: usize = 0;
        let mut p1: usize = 0;
        let mut p2: usize = 0;
        let mut k: usize = 0;
        while k < n
            invariant
                k <= n,
                n == s@.len(),
                ndots <= 2,
                ndots >= 1 ==> (p1 < k && s@[p1 as int] == 46),
                ndots >= 2 ==> (p1 < p2 < k && s@[p2 as int] == 46),
                forall|t: int|
                    0 <= t < k && #[trigger] s@[t] == 46 ==> ((ndots >= 1 && t == p1) || (ndots
                        >= 2 && t == p2)),
            decreases n - k,
        {
            if s[k] == 46 {
                if ndots == 0 {
                    p1 = k;
                    ndots = 1;
                } else if ndots == 1 {
                    p2 = k;
                    ndots = 2;
                } else {
                    proof {
                        assert forall|i: int, j: int| !#[trigger] version_bytes(s@, i, j) by {
                            if version_bytes(s@, i, j) {
                                assert(s@[p1 as int] == 46 && s@[p2 as int] == 46 && s@[k as int]
                                    == 46);
                                assert(p1 == i || p1 == j);
                                assert(p2 == i || p2 == j);
                                assert(k as int == i || k as int == j);
                            }
                        }
                    }
                    return None;
                }
            }
            k += 1;
        }
        if ndots != 2 {
            proof {
                assert forall|i: int, j: int| !#[trigger] version_bytes(s@, i, j) by {
                    if version_bytes(s@, i, j) {
                        assert(s@[i] == 46 && s@[j] == 46);
                    }
                }
            }
            return None;
        }
        proof {
            assert forall|i: int, j: int|
                #[trigger] version_bytes(s@, i, j) implies i == p1 as int && j == p2 as int by {
                assert(s@[i] == 46 && s@[j] == 46);
                assert(i == p1 || i == p2);
                assert(j == p1 || j == p2);
                assert(i < j);
                assert(s@[p1 as int] == 46 && s@[p2 as int] == 46);
            }
        }
        if p1 == 0 || p2 - p1 < 2 || n - p2 < 2 {
            proof {
                assert forall|i: int, j: int| !#[trigger] version_bytes(s@, i, j) by {}
            }
            return None;
        }
        let major = parse_u64_range(s.as_slice(), 0, p1);
        let minor = parse_u64_range(s.as_slice(), p1 + 1, p2);
        let patch = parse_u64_range(s.as_slice(), p2 + 1, n);
        match (major, minor, patch) {
            (Some(a), Some(bb), Some(c)) => {
                let ver = Version { major: a, minor: bb, patch: c };
                proof {
                    assert(version_bytes(s@, p1 as int, p2 as int));
                    assert(ver == version_value(s@, p1 as int, p2 as int));
                }
                Some(ver)
            },
            _ => {
                proof {
                    assert forall|i: int, j: int| !#[trigger] version_bytes(s@, i, j) by {}
                }
                None
            },
        }
    }
}

impl core::str::FromStr for Version {
    type Err = ParseVersionError;

    fn from_str(s: &str) -> Result<Version, ParseVersionError> {
        match Version::parse(s) {
            Some(v) => Ok(v),
            None => Err(ParseVersionError),
        }
    }
}

} // verus!
