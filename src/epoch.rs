use vstd::prelude::*;

use crate::text::{chars_between, chars_of, string_from_chars};

verus! {

/// A build-compatible generation of a package: its major version, or its
/// minor version where the major version is zero.
#[derive(Clone, Copy, Debug, PartialEq, Eq, Structural, Hash, PartialOrd, Ord)]
pub enum Epoch {
    Major(u64),
    Minor(u64),
}

/// Why a token is not an epoch.
#[derive(Clone, Debug, PartialEq, Eq)]
pub enum EpochParseError {
    /// The token is not `v<digits>` or `v<digits>_<digits>`.
    BadFormat,
    /// A digit segment holds something other than a number that fits in 64 bits;
    /// the segment is carried along.
    InvalidInt(String),
    /// The numbers are well formed but name no epoch (`v0`, `v0_0`, `v1_2`).
    BadVersion,
}

/// What a parse failure means, with the offending segment as characters.
pub enum ParseFault {
    BadFormat,
    InvalidInt(Seq<char>),
    BadVersion,
}

impl View for EpochParseError {
    type V = ParseFault;

    open spec fn view(&self) -> ParseFault {
        match self {
            EpochParseError::BadFormat => ParseFault::BadFormat,
            EpochParseError::InvalidInt(t) => ParseFault::InvalidInt(t@),
            EpochParseError::BadVersion => ParseFault::BadVersion,
        }
    }
}

pub open spec fn is_digit(c: char) -> bool {
    '0' <= c && c <= '9'
}

pub open spec fn digit_value(c: char) -> nat {
    (c as int - '0' as int) as nat
}

pub open spec fn digit_char(d: nat) -> char {
    (d + '0' as int) as char
}

/// The number that a run of decimal digits stands for, most significant first.
pub open spec fn decimal_value(t: Seq<char>) -> nat
    decreases t.len(),
{
    if t.len() == 0 {
        0
    } else {
        decimal_value(t.drop_last()) * 10 + digit_value(t.last())
    }
}

/// A non-empty run of decimal digits whose value fits in a `u64`.
pub open spec fn is_number(t: Seq<char>) -> bool {
    &&& t.len() > 0
    &&& forall|i: int| 0 <= i < t.len() ==> is_digit(#[trigger] t[i])
    &&& decimal_value(t) <= u64::MAX
}

/// The shortest decimal writing of `n`.
pub open spec fn decimal_digits(n: nat) -> Seq<char>
    decreases n,
{
    if n < 10 {
        seq![digit_char(n)]
    } else {
        decimal_digits(n / 10).push(digit_char(n % 10))
    }
}

/// The position of the first `_` in `s` at or after `i`, or the length of `s`.
pub open spec fn next_sep(s: Seq<char>, i: int) -> int
    decreases s.len() - i,
{
    if i < 0 || i >= s.len() {
        s.len() as int
    } else if s[i] == '_' {
        i
    } else {
        next_sep(s, i + 1)
    }
}

/// The epoch named by a major number and an optional minor number.
pub open spec fn epoch_of_numbers(major: nat, minor: Option<nat>) -> Option<Epoch> {
    match minor {
        None => if 1 <= major <= u64::MAX {
            Some(Epoch::Major(major as u64))
        } else {
            None
        },
        Some(m) => if major == 0 && 1 <= m <= u64::MAX {
            Some(Epoch::Minor(m as u64))
        } else {
            None
        },
    }
}

/// The epoch of a version `major.minor.*`: none for `0.0.*`.
pub open spec fn version_epoch(major: u64, minor: u64) -> Option<Epoch> {
    if major >= 1 {
        Some(Epoch::Major(major))
    } else if minor >= 1 {
        Some(Epoch::Minor(minor))
    } else {
        None
    }
}

/// The token of an epoch: `v<major>` or `v0_<minor>`.
pub open spec fn format_spec(e: Epoch) -> Seq<char> {
    match e {
        Epoch::Major(n) => seq!['v'] + decimal_digits(n as nat),
        Epoch::Minor(n) => seq!['v', '0', '_'] + decimal_digits(n as nat),
    }
}

/// What a token parses to. The shape (a leading `v`, one or two non-empty
/// segments split by `_`) is checked first, then the digits of each segment,
/// then whether the numbers name an epoch.
pub open spec fn parse_spec(s: Seq<char>) -> Result<Epoch, ParseFault> {
    if s.len() == 0 || s[0] != 'v' {
        Err(ParseFault::BadFormat)
    } else {
        let k = next_sep(s, 1);
        let major = s.subrange(1, k);
        if k == s.len() {
            if major.len() == 0 {
                Err(ParseFault::BadFormat)
            } else if !is_number(major) {
                Err(ParseFault::InvalidInt(major))
            } else {
                match epoch_of_numbers(decimal_value(major), None) {
                    Some(e) => Ok(e),
                    None => Err(ParseFault::BadVersion),
                }
            }
        } else {
            let minor = s.subrange(k + 1, s.len() as int);
            if major.len() == 0 || minor.len() == 0 || next_sep(s, k + 1) < s.len() {
                Err(ParseFault::BadFormat)
            } else if !is_number(major) {
                Err(ParseFault::InvalidInt(major))
            } else if !is_number(minor) {
                Err(ParseFault::InvalidInt(minor))
            } else {
                match epoch_of_numbers(decimal_value(major), Some(decimal_value(minor))) {
                    Some(e) => Ok(e),
                    None => Err(ParseFault::BadVersion),
                }
            }
        }
    }
}

pub open spec fn parse_view(r: Result<Epoch, EpochParseError>) -> Result<Epoch, ParseFault> {
    match r {
        Ok(e) => Ok(e),
        Err(err) => Err(err@),
    }
}

proof fn lemma_prefix_value_le(t: Seq<char>, j: int)
    requires
        0 <= j <= t.len(),
    ensures
        decimal_value(t.take(j)) <= decimal_value(t),
    decreases t.len(),
{
    if j < t.len() {
        lemma_prefix_value_le(t.drop_last(), j);
        assert(t.drop_last().take(j) =~= t.take(j));
    } else {
        assert(t.take(j) =~= t);
    }
}

/// The value of the digits `t[lo..hi]`, where they form a number.
fn parse_number(t: &Vec<char>, lo: usize, hi: usize) -> (r: Option<u64>)
    requires
        lo <= hi <= t@.len(),
    ensures
        r is Some <==> is_number(t@.subrange(lo as int, hi as int)),
        r is Some ==> r->0 == decimal_value(t@.subrange(lo as int, hi as int)),
{
    let ghost u = t@.subrange(lo as int, hi as int);
    if lo == hi {
        return None;
    }
    let mut acc: u64 = 0;
    let mut i: usize = lo;
    while i < hi
        invariant
            lo <= i <= hi <= t@.len(),
            u == t@.subrange(lo as int, hi as int),
            forall|j: int| 0 <= j < i - lo ==> is_digit(#[trigger] u[j]),
            acc == decimal_value(u.take(i - lo)),
        decreases hi - i,
    {
        let c = t[i];
        if !('0' <= c && c <= '9') {
            assert(!is_digit(u[i - lo]));
            return None;
        }
        let d: u64 = (c as u32 - '0' as u32) as u64;
        assert(u.take(i - lo + 1).drop_last() =~= u.take(i - lo));
        if acc > 1844674407370955161 || (acc == 1844674407370955161 && d > 5) {
            proof {
                if forall|j: int| 0 <= j < u.len() ==> is_digit(#[trigger] u[j]) {
                    lemma_prefix_value_le(u, i - lo + 1);
                }
            }
            return None;
        }
        acc = acc * 10 + d;
        i += 1;
    }
    assert(u.take(hi - lo) =~= u);
    Some(acc)
}

/// Appends the decimal writing of `n` to `out`.
fn push_decimal(n: u64, out: &mut Vec<char>)
    ensures
        final(out)@ == old(out)@ + decimal_digits(n as nat),
    decreases n,
{
    if n >= 10 {
        push_decimal(n / 10, out);
    }
    let d: u32 = (n % 10) as u32;
    let c = char_of_digit(d);
    out.push(c);
    assert(final(out)@ =~= old(out)@ + decimal_digits(n as nat));
}

fn char_of_digit(d: u32) -> (c: char)
    requires
        d < 10,
    ensures
        c == digit_char(d as nat),
{
    if d == 0 { '0' } else if d == 1 { '1' } else if d == 2 { '2' } else if d == 3 { '3' }
    else if d == 4 { '4' } else if d == 5 { '5' } else if d == 6 { '6' } else if d == 7 { '7' }
    else if d == 8 { '8' } else { '9' }
}

proof fn lemma_decimal_digits(n: nat)
    ensures
        decimal_digits(n).len() > 0,
        forall|i: int| 0 <= i < decimal_digits(n).len() ==> is_digit(#[trigger] decimal_digits(n)[i]),
        decimal_value(decimal_digits(n)) == n,
    decreases n,
{
    let c = digit_char(n % 10);
    assert(digit_value(c) == n % 10);
    assert(is_digit(c));
    if n >= 10 {
        lemma_decimal_digits(n / 10);
        let t = decimal_digits(n);
        assert(t.drop_last() =~= decimal_digits(n / 10));
        assert(t.last() == c);
        assert(decimal_value(t) == decimal_value(decimal_digits(n / 10)) * 10 + digit_value(c));
        assert(n == (n / 10) * 10 + n % 10);
    } else {
        let t = decimal_digits(n);
        assert(t.drop_last() =~= Seq::<char>::empty());
        assert(t.last() == c);
        assert(decimal_value(t) == decimal_value(t.drop_last()) * 10 + digit_value(c));
    }
}

/// Formatting a major epoch and parsing the token gives the epoch back.
pub proof fn lemma_parse_format_major(m: u64)
    requires
        m >= 1,
    ensures
        parse_spec(format_spec(Epoch::Major(m))) == Ok::<Epoch, ParseFault>(Epoch::Major(m)),
{
    let s = format_spec(Epoch::Major(m));
    let d = decimal_digits(m as nat);
    lemma_decimal_digits(m as nat);
    assert forall|i: int| 1 <= i <= s.len() implies next_sep(s, i) == s.len() by {
        lemma_no_sep_from(s, i);
    }
    assert(s.subrange(1, s.len() as int) =~= d);
}

/// Formatting a minor epoch and parsing the token gives the epoch back.
pub proof fn lemma_parse_format_minor(n: u64)
    requires
        n >= 1,
    ensures
        parse_spec(format_spec(Epoch::Minor(n))) == Ok::<Epoch, ParseFault>(Epoch::Minor(n)),
{
    let s = format_spec(Epoch::Minor(n));
    let d = decimal_digits(n as nat);
    lemma_decimal_digits(n as nat);
    assert(next_sep(s, 2) == 2);
    assert(next_sep(s, 1) == 2);
    assert forall|i: int| 3 <= i <= s.len() implies next_sep(s, i) == s.len() by {
        lemma_no_sep_from(s, i);
    }
    let major = s.subrange(1, 2);
    assert(major =~= seq!['0']);
    assert(major.drop_last() =~= Seq::<char>::empty());
    assert(digit_value('0') == 0);
    assert(major.last() == '0');
    assert(decimal_value(major.drop_last()) == 0);
    assert(decimal_value(major) == decimal_value(major.drop_last()) * 10 + digit_value('0'));
    assert(decimal_value(major) == 0);
    assert(s.subrange(3, s.len() as int) =~= d);
}

/// Two valid epochs with the same token are the same epoch.
pub proof fn lemma_format_injective(a: Epoch, b: Epoch)
    requires
        a.valid(),
        b.valid(),
        format_spec(a) == format_spec(b),
    ensures
        a == b,
{
    match a {
        Epoch::Major(m) => lemma_parse_format_major(m),
        Epoch::Minor(n) => lemma_parse_format_minor(n),
    }
    match b {
        Epoch::Major(m) => lemma_parse_format_major(m),
        Epoch::Minor(n) => lemma_parse_format_minor(n),
    }
}

proof fn lemma_no_sep_from(s: Seq<char>, i: int)
    requires
        1 <= i <= s.len(),
        forall|j: int| i <= j < s.len() ==> is_digit(#[trigger] s[j]),
    ensures
        next_sep(s, i) == s.len(),
    decreases s.len() - i,
{
    if i < s.len() {
        lemma_no_sep_from(s, i + 1);
    }
}

impl Epoch {
    /// Both positions of a valid epoch are non-zero.
    pub open spec fn valid(self) -> bool {
        match self {
            Epoch::Major(n) => n >= 1,
            Epoch::Minor(n) => n >= 1,
        }
    }

    /// The epoch of a version `major.minor.*`: none for `0.0.*`.
    pub fn from_version(major: u64, minor: u64) -> (r: Option<Epoch>)
        ensures
            r == version_epoch(major, minor),
            r matches Some(e) ==> e.valid(),
    {
        if major >= 1 {
            Some(Epoch::Major(major))
        } else if minor >= 1 {
            Some(Epoch::Minor(minor))
        } else {
            None
        }
    }

    /// Reads an epoch token: `v<major>` with a major version of at least
    /// one, or `v0_<minor>` with a minor version of at least one.
    pub fn parse(s: &str) -> (r: Result<Epoch, EpochParseError>)
        ensures
            parse_view(r) == parse_spec(s@),
            r matches Ok(e) ==> e.valid(),
    {
        let t = chars_of(s);
        let n = t.len();
        if n == 0 || t[0] != 'v' {
            return Err(EpochParseError::BadFormat);
        }
        let mut k: usize = 1;
        while k < n && t[k] != '_'
            invariant
                1 <= k <= n == t@.len(),
                next_sep(t@, 1) == next_sep(t@, k as int),
            decreases n - k,
        {
            k += 1;
        }
        assert(next_sep(t@, k as int) == k);
        if k == n {
            if k == 1 {
                return Err(EpochParseError::BadFormat);
            }
            return match parse_number(&t, 1, k) {
                None => Err(EpochParseError::InvalidInt(string_from_chars(&chars_between(&t, 1, k)))),
                Some(m) => if m >= 1 {
                    Ok(Epoch::Major(m))
                } else {
                    Err(EpochParseError::BadVersion)
                },
            };
        }
        let mut q: usize = k + 1;
        while q < n && t[q] != '_'
            invariant
                k + 1 <= q <= n == t@.len(),
                next_sep(t@, k + 1) == next_sep(t@, q as int),
            decreases n - q,
        {
            q += 1;
        }
        assert(next_sep(t@, q as int) == q);
        if k == 1 || k + 1 == n || q < n {
            return Err(EpochParseError::BadFormat);
        }
        let major = match parse_number(&t, 1, k) {
            None => {
                return Err(EpochParseError::InvalidInt(string_from_chars(&chars_between(&t, 1, k))));
            },
            Some(m) => m,
        };
        let minor = match parse_number(&t, k + 1, n) {
            None => {
                return Err(
                    EpochParseError::InvalidInt(string_from_chars(&chars_between(&t, k + 1, n))),
                );
            },
            Some(m) => m,
        };
        if major == 0 && minor >= 1 {
            Ok(Epoch::Minor(minor))
        } else {
            Err(EpochParseError::BadVersion)
        }
    }
    /// The token of this epoch: `v<major>` or `v0_<minor>`.
    pub fn to_string(&self) -> (r: String)
        ensures
            r@ == format_spec(*self),
    {
        let mut out: Vec<char> = Vec::new();
        match *self {
            Epoch::Major(n) => {
                out.push('v');
                push_decimal(n, &mut out);
            },
            Epoch::Minor(n) => {
                out.push('v');
                out.push('0');
                out.push('_');
                push_decimal(n, &mut out);
            },
        }
        assert(out@ =~= format_spec(*self));
        string_from_chars(&out)
    }
}

impl std::str::FromStr for Epoch {
    type Err = EpochParseError;

    fn from_str(s: &str) -> Result<Epoch, EpochParseError> {
        Epoch::parse(s)
    }
}

} // verus!
