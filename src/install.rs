//! The choices made while fetching and unpacking the archive: where to
//! install, what to call the downloaded file, how long it is announced to be,
//! and which archive entries to keep.
use vstd::prelude::*;
use vstd::string::StrSliceExecFns;
use crate::text::{lemma_split_on_nonempty, split, split_on, trim_of, trimmed};

verus! {

/// Where the tool installs when the answer to its prompt is blank.
pub const DEFAULT_DIR: &'static str = "C:\\ffmpeg";

/// The archive that the tool downloads.
pub const DOWNLOAD_URL: &'static str =
    "https://www.gyan.dev/ffmpeg/builds/ffmpeg-release-essentials.zip";

/// The ending of the archive entries that are extracted.
pub const EXE_SUFFIX: &'static str = ".exe";

/// Why an announced length is not a number of bytes.
#[derive(PartialEq, Eq, Structural, Debug, Clone, Copy)]
pub enum LengthError {
    /// The value is empty.
    Empty,
    /// The value holds something other than an optional `+` and decimal digits.
    InvalidDigit,
    /// The leading digits already stand for more than `u64::MAX`.
    Overflow,
}

/// Whether `c` is an ASCII decimal digit.
pub open spec fn is_digit(c: char) -> bool {
    '0' as u32 <= c as u32 <= '9' as u32
}

/// The value of a decimal digit.
pub open spec fn digit_of(c: char) -> nat {
    (c as u32 - '0' as u32) as nat
}

/// Whether `s` consists of decimal digits only.
pub open spec fn all_digits(s: Seq<char>) -> bool {
    forall|i: int| 0 <= i < s.len() ==> is_digit(#[trigger] s[i])
}

/// The number that the decimal digits `s` write.
pub open spec fn decimal_value(s: Seq<char>) -> nat
    decreases s.len(),
{
    if s.len() == 0 {
        0
    } else {
        decimal_value(s.drop_last()) * 10 + digit_of(s.last())
    }
}

/// `s` without one leading `+`.
pub open spec fn unsigned_part(s: Seq<char>) -> Seq<char> {
    if s.len() > 0 && s[0] == '+' {
        s.drop_first()
    } else {
        s
    }
}

/// Whether some run of leading digits of `d` writes more than `u64::MAX`.
pub open spec fn leading_digits_overflow(d: Seq<char>) -> bool {
    exists|k: int|
        0 <= k <= d.len() && all_digits(#[trigger] d.subrange(0, k)) && decimal_value(
            d.subrange(0, k),
        ) > u64::MAX
}

/// The result of reading `s` as an unsigned 64-bit decimal number: an optional
/// `+` followed by at least one digit, with no other characters.
pub open spec fn u64_of(s: Seq<char>) -> Result<u64, LengthError> {
    if s.len() == 0 {
        Err(LengthError::Empty)
    } else if s.len() == 1 && (s[0] == '+' || s[0] == '-') {
        Err(LengthError::InvalidDigit)
    } else if leading_digits_overflow(unsigned_part(s)) {
        Err(LengthError::Overflow)
    } else if !all_digits(unsigned_part(s)) {
        Err(LengthError::InvalidDigit)
    } else {
        Ok(decimal_value(unsigned_part(s)) as u64)
    }
}

/// Reads `s` as an unsigned 64-bit decimal number.
pub fn parse_u64(s: &str) -> (r: Result<u64, LengthError>)
    ensures
        r == u64_of(s@),
{
    let n = s.unicode_len();
    if n == 0 {
        return Err(LengthError::Empty);
    }
    let first = s.get_char(0);
    if n == 1 && (first == '+' || first == '-') {
        return Err(LengthError::InvalidDigit);
    }
    let start: usize = if first == '+' {
        1
    } else {
        0
    };
    let ghost d = unsigned_part(s@);
    assert(d =~= s@.subrange(start as int, n as int));
    let mut value: u64 = 0;
    let mut i: usize = start;
    assert(d.subrange(0, 0) =~= Seq::<char>::empty());
    while i < n
        invariant
            start <= i <= n,
            n == s@.len(),
            d == s@.subrange(start as int, n as int),
            d == unsigned_part(s@),
            n > 0,
            !(n == 1 && (s@[0] == '+' || s@[0] == '-')),
            all_digits(d.subrange(0, i - start)),
            value == decimal_value(d.subrange(0, i - start)),
            forall|k: int|
                0 <= k <= i - start ==> decimal_value(#[trigger] d.subrange(0, k)) <= u64::MAX,
        decreases n - i,
    {
        let c = s.get_char(i);
        let ghost j = i - start;
        assert(d[j] == c);
        let u = c as u32;
        if !('0' as u32 <= u && u <= '9' as u32) {
            assert(!leading_digits_overflow(d)) by {
                assert forall|k: int|
                    0 <= k <= d.len() && all_digits(#[trigger] d.subrange(0, k)) implies decimal_value(
                    d.subrange(0, k),
                ) <= u64::MAX by {
                    if k > j {
                        assert(d.subrange(0, k)[j] == c);
                    }
                }
            }
            assert(!all_digits(d));
            return Err(LengthError::InvalidDigit);
        }
        let digit = (u - '0' as u32) as u64;
        let ghost grown = d.subrange(0, j + 1);
        assert(grown.drop_last() =~= d.subrange(0, j));
        assert(grown.last() == c);
        assert(all_digits(grown)) by {
            assert forall|t: int| 0 <= t < grown.len() implies is_digit(#[trigger] grown[t]) by {
                if t < j {
                    assert(grown[t] == d.subrange(0, j)[t]);
                }
            }
        }
        assert(decimal_value(grown) == value * 10 + digit);
        match value.checked_mul(10) {
            None => {
                assert(leading_digits_overflow(d));
                return Err(LengthError::Overflow);
            },
            Some(tens) => match tens.checked_add(digit) {
                None => {
                    assert(leading_digits_overflow(d));
                    return Err(LengthError::Overflow);
                },
                Some(next) => {
                    value = next;
                },
            },
        }
        i += 1;
    }
    assert(d.subrange(0, n - start) =~= d);
    Ok(value)
}

/// The length that a `Content-Length` header announces; a missing header
/// announces nothing, which counts as zero.
pub fn content_length(header: Option<&str>) -> (r: Result<u64, LengthError>)
    ensures
        header matches Some(h) ==> r == u64_of(h@),
        header is None ==> r == Ok::<u64, LengthError>(0),
{
    match header {
        Some(h) => parse_u64(h),
        None => Ok(0),
    }
}

/// The installation directory for an answer to the prompt: the answer without
/// surrounding white space, or `default` where nothing else is left.
pub open spec fn chosen_dir(answer: Seq<char>, default: Seq<char>) -> Seq<char> {
    if trim_of(answer).len() == 0 {
        default
    } else {
        trim_of(answer)
    }
}

/// The last `/`-separated piece of a URL.
pub open spec fn url_file_name_of(url: Seq<char>) -> Seq<char> {
    split_on(url, '/').last()
}

/// Whether `s` ends with `suffix`.
pub open spec fn has_suffix(s: Seq<char>, suffix: Seq<char>) -> bool {
    suffix.len() <= s.len() && s.subrange(s.len() - suffix.len(), s.len() as int) == suffix
}

/// Whether an archive entry is one that is extracted.
pub open spec fn is_executable_name(name: Seq<char>) -> bool {
    has_suffix(name, EXE_SUFFIX@)
}

/// The entry names that are extracted, in their order.
pub open spec fn executables_of(names: Seq<Seq<char>>) -> Seq<Seq<char>> {
    names.filter(|n: Seq<char>| is_executable_name(n))
}

/// The installation directory for the answer typed at the prompt.
pub fn install_dir(answer: &str, default: &str) -> (r: String)
    ensures
        r@ == chosen_dir(answer@, default@),
{
    let t = trimmed(answer);
    if t.as_str().is_empty() {
        default.to_owned()
    } else {
        t
    }
}

/// The name under which a download from `url` is saved: the part after its
/// last `/`.
pub fn url_file_name(url: &str) -> (r: String)
    ensures
        r@ == url_file_name_of(url@),
{
    let pieces = split(url, '/');
    proof {
        lemma_split_on_nonempty(url@, '/');
    }
    let last = pieces.len() - 1;
    assert(pieces.deep_view()[last as int] == pieces[last as int]@);
    pieces[last].clone()
}

/// Whether `s` ends with `suffix`.
pub fn ends_with(s: &str, suffix: &str) -> (r: bool)
    ensures
        r == has_suffix(s@, suffix@),
{
    let n = s.unicode_len();
    let m = suffix.unicode_len();
    if m > n {
        return false;
    }
    let offset = n - m;
    let mut k: usize = 0;
    while k < m
        invariant
            k <= m <= n,
            offset == n - m,
            n == s@.len(),
            m == suffix@.len(),
            forall|j: int| 0 <= j < k ==> s@[offset + j] == suffix@[j],
        decreases m - k,
    {
        if s.get_char(offset + k) != suffix.get_char(k) {
            assert(s@.subrange(offset as int, n as int)[k as int] != suffix@[k as int]);
            return false;
        }
        k += 1;
    }
    assert(s@.subrange(offset as int, n as int) =~= suffix@);
    true
}

/// The names among `names` that are extracted, in their order.
pub fn select_executables(names: &Vec<String>) -> (r: Vec<String>)
    ensures
        r.deep_view() == executables_of(names.deep_view()),
{
    let mut kept: Vec<String> = Vec::new();
    let mut i: usize = 0;
    proof {
        reveal(Seq::filter);
    }
    assert(names.deep_view().subrange(0, 0) =~= Seq::<Seq<char>>::empty());
    while i < names.len()
        invariant
            i <= names.len(),
            kept.deep_view() == executables_of(names.deep_view().subrange(0, i as int)),
        decreases names.len() - i,
    {
        let ghost all = names.deep_view();
        let ghost before = kept.deep_view();
        assert(all.subrange(0, i + 1).drop_last() =~= all.subrange(0, i as int));
        proof {
            reveal(Seq::filter);
        }
        assert(executables_of(all.subrange(0, i + 1)) == if is_executable_name(all[i as int]) {
            before.push(all[i as int])
        } else {
            before
        });
        if ends_with(names[i].as_str(), EXE_SUFFIX) {
            kept.push(names[i].clone());
            assert(kept.deep_view() =~= before.push(names[i as int]@));
        }
        i += 1;
    }
    assert(names.deep_view().subrange(0, names.len() as int) =~= names.deep_view());
    kept
}

} // verus!
