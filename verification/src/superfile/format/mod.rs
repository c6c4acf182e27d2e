//! Magic bytes, version strings and metadata keys: what stands where in a
//! superfile.

pub mod fts;
pub mod kv;
pub mod vec;

use vstd::prelude::*;
use crate::text::{
    decimal, digit_value, is_digit, lemma_decimal_reads_back, lemma_no_leading_zero, parse_decimal,
    read_digits, to_chars,
};

verus! {

/// The 3 bytes that every section's magic starts with.
pub const PROJECT_MAGIC: [u8; 3] = [0x49, 0x4e, 0x46];

/// Version of the file format. A new major version breaks compatibility.
pub const FORMAT_VERSION: &'static str = "1.0.0";

/// Column names of full-text and vector columns must not start with this.
pub const RESERVED_PREFIX: &'static str = "inf.";

/// Separates column and term inside a term-dictionary key; below every
/// printable ASCII character.
pub const FST_SEPARATOR: u8 = 0x1F;

/// A version of the format.
#[derive(Debug, Clone, Copy, PartialEq, Eq, Structural)]
pub struct Version {
    pub major: u32,
    pub minor: u32,
    pub patch: u32,
}

/// One component of a version: digits, with no leading zero.
pub open spec fn component(s: Seq<char>) -> Option<u32> {
    if s.len() > 0 && (s.len() == 1 || s[0] != '0') {
        match read_digits(s, u32::MAX as nat) {
            Ok(v) => Some(v as u32),
            Err(_) => None,
        }
    } else {
        None
    }
}

/// Do `i` and `j` mark the only two dots of `s`?
pub open spec fn two_dots(s: Seq<char>, i: int, j: int) -> bool {
    &&& 0 <= i < j < s.len()
    &&& forall|k: int| 0 <= k < s.len() ==> ((#[trigger] s[k]) == '.' <==> (k == i || k == j))
}

/// The version that `s` spells: three components with a dot between them.
pub open spec fn version_of(s: Seq<char>) -> Option<Version> {
    if exists|i: int, j: int| two_dots(s, i, j) {
        let (i, j) = choose|i: int, j: int| two_dots(s, i, j);
        match (
            component(s.subrange(0, i)),
            component(s.subrange(i + 1, j)),
            component(s.subrange(j + 1, s.len() as int)),
        ) {
            (Some(major), Some(minor), Some(patch)) => Some(Version { major, minor, patch }),
            _ => None,
        }
    } else {
        None
    }
}

proof fn lemma_two_dots_unique(s: Seq<char>, i: int, j: int, x: int, y: int)
    requires
        two_dots(s, i, j),
        two_dots(s, x, y),
    ensures
        x == i,
        y == j,
{
    assert(s[x] == '.');
    assert(s[y] == '.');
    assert(s[i] == '.');
    assert(s[j] == '.');
}

/// Reads one component.
fn parse_component(chars: &[char], from: usize, to: usize) -> (res: Option<u32>)
    requires
        from <= to <= chars@.len(),
    ensures
        res == component(chars@.subrange(from as int, to as int)),
{
    let ghost s = chars@.subrange(from as int, to as int);
    if from == to || chars[from] == '+' || (chars[from] == '0' && to - from > 1) {
        proof {
            if from < to && chars@[from as int] == '+' {
                assert(!is_digit('+'));
                crate::text::lemma_digits_only(s, u32::MAX as nat);
            }
        }
        return None;
    }
    match parse_decimal(chars, from, to, u32::MAX as u64) {
        Ok(v) => Some(v as u32),
        Err(_) => None,
    }
}

impl Version {
    /// Reads a strict `MAJOR.MINOR.PATCH` version: three numbers without
    /// sign or leading zero, and no pre-release or build metadata.
    pub fn parse(s: &str) -> (res: Option<Self>)
        ensures
            res == version_of(s@),
    {
        let chars = to_chars(s);
        let mut dots: usize = 0;
        let mut first: usize = 0;
        let mut second: usize = 0;
        let mut k: usize = 0;
        while k < chars.len()
            invariant
                k <= chars@.len(),
                chars@ == s@,
                dots <= 2,
                dots == 0 ==> forall|m: int| 0 <= m < k ==> (#[trigger] s@[m]) != '.',
                dots >= 1 ==> first < k && s@[first as int] == '.',
                dots == 1 ==> forall|m: int|
                    0 <= m < k ==> ((#[trigger] s@[m]) == '.' <==> m == first),
                dots == 2 ==> first < second < k && s@[second as int] == '.' && forall|m: int|
                    0 <= m < k ==> ((#[trigger] s@[m]) == '.' <==> (m == first || m == second)),
            decreases chars.len() - k,
        {
            if chars[k] == '.' {
                if dots == 0 {
                    first = k;
                } else if dots == 1 {
                    second = k;
                } else {
                    proof {
                        assert forall|i: int, j: int| !two_dots(s@, i, j) by {
                            assert(s@[k as int] == '.');
                        }
                    }
                    return None;
                }
                dots = dots + 1;
            }
            k = k + 1;
        }
        if dots < 2 {
            proof {
                assert forall|i: int, j: int| !two_dots(s@, i, j) by {
                    if two_dots(s@, i, j) {
                        assert(s@[i] == '.');
                        assert(s@[j] == '.');
                    }
                }
            }
            return None;
        }
        proof {
            assert(two_dots(s@, first as int, second as int));
            let (i, j) = choose|i: int, j: int| two_dots(s@, i, j);
            lemma_two_dots_unique(s@, first as int, second as int, i, j);
        }
        let major = parse_component(&chars, 0, first);
        let minor = parse_component(&chars, first + 1, second);
        let patch = parse_component(&chars, second + 1, chars.len());
        match (major, minor, patch) {
            (Some(major), Some(minor), Some(patch)) => Some(Version { major, minor, patch }),
            _ => None,
        }
    }

    /// A reader accepts a file whose major version is its own; minor and
    /// patch versions are compatible in both directions.
    pub fn is_compatible_with_current(&self) -> (res: bool)
        ensures
            version_of(FORMAT_VERSION@) matches Some(current) && res == (self.major
                == current.major),
            res == (self.major == 1),
    {
        proof {
            lemma_current_version();
        }
        match Version::parse(FORMAT_VERSION) {
            Some(current) => self.major == current.major,
            None => false,
        }
    }
}

/// The current format version is a version, with major number 1.
pub proof fn lemma_current_version()
    ensures
        version_of(FORMAT_VERSION@) == Some(Version { major: 1, minor: 0, patch: 0 }),
{
    reveal_strlit("1.0.0");
    let s = FORMAT_VERSION@;
    assert(s =~= seq!['1', '.', '0', '.', '0']);
    assert(two_dots(s, 1, 3));
    let (i, j) = choose|i: int, j: int| two_dots(s, i, j);
    lemma_two_dots_unique(s, 1, 3, i, j);
    reveal_with_fuel(read_digits, 2);
    assert(s.subrange(0, 1) =~= seq!['1']);
    assert(s.subrange(2, 3) =~= seq!['0']);
    assert(s.subrange(4, 5) =~= seq!['0']);
    assert(seq!['1'].drop_last() =~= Seq::<char>::empty());
    assert(seq!['0'].drop_last() =~= Seq::<char>::empty());
}

/// Digits without a zero before them are the number that they read as, in
/// decimal.
proof fn lemma_digits_are_decimal(s: Seq<char>, max: nat)
    requires
        s.len() > 0,
        s.len() == 1 || s[0] != '0',
        read_digits(s, max) is Ok,
    ensures
        decimal(read_digits(s, max)->Ok_0) == s,
        s[0] != '0' ==> read_digits(s, max)->Ok_0 > 0,
    decreases s.len(),
{
    let rest = s.drop_last();
    let last = s.len() - 1;
    let n = read_digits(s, max)->Ok_0;
    assert(s[last] == s.last());
    if rest.len() == 0 {
        assert(read_digits(rest, max) == Ok::<nat, crate::text::DecimalError>(0));
        assert(decimal(n) =~= s);
    } else {
        assert(rest[0] == s[0]);
        lemma_digits_are_decimal(rest, max);
        let m = read_digits(rest, max)->Ok_0;
        assert(n == 10 * m + digit_value(s.last()));
        assert(n / 10 == m);
        assert(n % 10 == digit_value(s.last()));
        assert(decimal(n) =~= decimal(m).push(s.last()));
        assert(rest.push(s.last()) =~= s);
    }
}

proof fn lemma_component(s: Seq<char>, v: u32)
    ensures
        component(s) == Some(v) <==> s == decimal(v as nat),
{
    lemma_decimal_reads_back(v as nat, u32::MAX as nat);
    lemma_no_leading_zero(v as nat);
    if component(s) == Some(v) {
        lemma_digits_are_decimal(s, u32::MAX as nat);
        crate::text::lemma_read_digits_value(s, u32::MAX as nat);
    }
    if s == decimal(v as nat) {
        if v == 0 {
            assert(s.len() == 1);
        }
    }
}

/// A text is a version exactly if it is its three numbers in decimal, with a
/// dot between them.
pub proof fn lemma_versions_are_their_numbers(s: &str, res: Option<Version>, v: Version)
    requires
        call_ensures(Version::parse, (s,), res),
    ensures
        res == Some(v) <==> s@ == decimal(v.major as nat) + seq!['.'] + decimal(v.minor as nat)
            + seq!['.'] + decimal(v.patch as nat),
{
    let (a, b, c) = (decimal(v.major as nat), decimal(v.minor as nat), decimal(v.patch as nat));
    let t = a + seq!['.'] + b + seq!['.'] + c;
    lemma_decimal_reads_back(v.major as nat, u32::MAX as nat);
    lemma_decimal_reads_back(v.minor as nat, u32::MAX as nat);
    lemma_decimal_reads_back(v.patch as nat, u32::MAX as nat);
    if res == Some(v) {
        let (i, j) = choose|i: int, j: int| two_dots(s@, i, j);
        assert(two_dots(s@, i, j));
        lemma_component(s@.subrange(0, i), v.major);
        lemma_component(s@.subrange(i + 1, j), v.minor);
        lemma_component(s@.subrange(j + 1, s@.len() as int), v.patch);
        assert(s@[i] == '.' && s@[j] == '.');
        assert(s@ =~= t);
    }
    if s@ == t {
        let x = a.len() as int;
        let y = x + 1 + b.len();
        assert(t[x] == '.' && t[y] == '.');
        assert forall|k: int| 0 <= k < t.len() implies ((#[trigger] t[k]) == '.' <==> (k == x || k
            == y)) by {
            if k < x {
                assert(t[k] == a[k]);
                assert(is_digit(a[k]));
            } else if x < k < y {
                assert(t[k] == b[k - x - 1]);
                assert(is_digit(b[k - x - 1]));
            } else if y < k {
                assert(t[k] == c[k - y - 1]);
                assert(is_digit(c[k - y - 1]));
            }
        }
        assert(two_dots(s@, x, y));
        let (i, j) = choose|i: int, j: int| two_dots(s@, i, j);
        lemma_two_dots_unique(s@, x, y, i, j);
        assert(s@.subrange(0, x) =~= a);
        assert(s@.subrange(x + 1, y) =~= b);
        assert(s@.subrange(y + 1, s@.len() as int) =~= c);
        lemma_component(a, v.major);
        lemma_component(b, v.minor);
        lemma_component(c, v.patch);
    }
}

} // verus!
