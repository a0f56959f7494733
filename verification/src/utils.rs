use vstd::prelude::*;
use vstd::utf8::*;
use vstd::string::StringSliceAdditionalSpecFns;

use crate::error::ProcessorError;
use crate::text::{
    chars_of, decimal, decimal_string, digit_char, digits_value, is_digit, parse_u32,
    parse_u32_range, unsigned_digits,
};

verus! {

broadcast use {vstd::utf8::encode_utf8_decode_utf8, vstd::utf8::encode_utf8_valid_utf8};

/// The final component of a path, as `std::path::Path::file_name` gives it
/// (`None` for a path that ends in `..` or is a root or empty).
pub uninterp spec fn path_file_name(path: Seq<char>) -> Option<Seq<char>>;

/// Calls `std::path::Path::file_name` on `path` and hands the name back as text.
/// The contract claims only that the result is the named `path_file_name` of
/// the path; the path is UTF-8 text, so its final component is too.
#[verifier::external_body]
pub(crate) fn file_name_of(path: &str) -> (r: Option<String>)
    ensures
        r.deep_view() == path_file_name(path@),
{
    match std::path::Path::new(path).file_name() {
        Some(n) => match n.to_str() {
            Some(s) => Some(s.to_string()),
            None => None,
        },
        None => None,
    }
}

/// Bytes `3..9` of the name can be cut out without splitting a character.
pub open spec fn counter_slice_ok(name: Seq<char>) -> bool {
    encode_utf8(name).len() >= 9 ==> (is_char_boundary(encode_utf8(name), 3)
        && is_char_boundary(encode_utf8(name), 9))
}

/// The counter segment of a scan file name: bytes `3..9`.
pub open spec fn counter_segment(name: Seq<char>) -> Seq<char> {
    decode_utf8(encode_utf8(name).subrange(3, 9))
}

/// The reason given for a name shorter than nine bytes.
pub open spec fn too_short_reason(len: nat) -> Seq<char> {
    "filename too short (need ≥9 chars, got "@ + decimal(len) + ")"@
}

/// The reason given for a name whose bytes `3..9` do not begin and end on
/// character boundaries.
pub open spec fn split_char_reason() -> Seq<char> {
    "counter segment (bytes 3..9) splits a multi-byte character"@
}

/// The reason given for a counter segment that is not a number.
pub open spec fn not_a_number_reason(segment: Seq<char>) -> Seq<char> {
    "counter segment '"@ + segment + "' is not a number: invalid digit found in string"@
}

/// `r` is a file name error for `filename` with the given reason.
pub open spec fn is_filename_error(
    r: Result<u32, ProcessorError>,
    filename: Seq<char>,
    reason: Seq<char>,
) -> bool {
    r matches Err(ProcessorError::FilenameParseError { filename: f, reason: m }) && f@ == filename
        && m@ == reason
}

/// Every character is an ASCII decimal digit.
pub open spec fn all_digits(s: Seq<char>) -> bool {
    forall|i: int| 0 <= i < s.len() ==> is_digit(#[trigger] s[i])
}

/// What reading the counter from the file name `name` gives: names under nine
/// bytes are refused, and so are names whose bytes `3..9` cut a character;
/// otherwise bytes `3..9` must be decimal digits only (no sign), read as a
/// number.
pub open spec fn counter_outcome(name: Seq<char>, r: Result<u32, ProcessorError>) -> bool {
    let len = encode_utf8(name).len();
    if len < 9 {
        is_filename_error(r, name, too_short_reason(len))
    } else if !counter_slice_ok(name) {
        is_filename_error(r, name, split_char_reason())
    } else if !all_digits(counter_segment(name)) {
        is_filename_error(r, name, not_a_number_reason(counter_segment(name)))
    } else {
        match parse_u32(counter_segment(name)) {
            Some(n) => r == Ok::<u32, ProcessorError>(n),
            None => is_filename_error(r, name, not_a_number_reason(counter_segment(name))),
        }
    }
}

/// `10` to the power `k`.
pub open spec fn pow10(k: nat) -> nat
    decreases k,
{
    if k == 0 {
        1
    } else {
        10 * pow10((k - 1) as nat)
    }
}

/// A string has at least as many UTF-8 bytes as characters.
proof fn lemma_encode_utf8_len(s: Seq<char>)
    ensures
        encode_utf8(s).len() >= s.len(),
    decreases s.len(),
{
    if s.len() > 0 {
        lemma_encode_utf8_len(s.drop_first());
    }
}

/// A string of at most `k` digits has a value below `10^k`.
proof fn lemma_digits_value_bound(s: Seq<char>, k: nat)
    requires
        s.len() <= k,
        forall|i: int| 0 <= i < s.len() ==> is_digit(#[trigger] s[i]),
    ensures
        digits_value(s) < pow10(k),
    decreases s.len(),
{
    if s.len() == 0 {
        if k > 0 {
            lemma_pow10_positive((k - 1) as nat);
        }
    } else {
        let t = s.drop_last();
        assert forall|i: int| 0 <= i < t.len() implies is_digit(#[trigger] t[i]) by {
            assert(t[i] == s[i]);
        }
        assert(is_digit(s[s.len() - 1]));
        lemma_digits_value_bound(t, (k - 1) as nat);
    }
}

proof fn lemma_pow10_positive(k: nat)
    ensures
        pow10(k) >= 1,
    decreases k,
{
    if k > 0 {
        lemma_pow10_positive((k - 1) as nat);
    }
}

/// A counter read from a file name has at most six digits: it is below a million.
pub proof fn lemma_counter_below_million(name: Seq<char>, n: u32)
    requires
        counter_outcome(name, Ok(n)),
    ensures
        n < 1000000,
{
    let b = encode_utf8(name);
    let seg = counter_segment(name);
    vstd::utf8::valid_utf8_split(b, 3);
    let rest = b.subrange(3, b.len() as int);
    lemma_boundary_after_split(b, 3, 9);
    vstd::utf8::valid_utf8_split(rest, 6);
    assert(rest.subrange(0, 6) =~= b.subrange(3, 9));
    vstd::utf8::decode_utf8_encode_utf8(b.subrange(3, 9));
    lemma_encode_utf8_len(seg);
    let d = unsigned_digits(seg);
    assert(d.len() <= 6);
    lemma_digits_value_bound(d, 6);
    reveal_with_fuel(pow10, 7);
}

/// A counter read from a path is below a million.
pub proof fn lemma_counter_of_path_below_million(path: Seq<char>)
    ensures
        counter_of_path(path) matches Some(n) ==> n < 1000000,
{
    if let Some(name) = path_file_name(path) {
        if let Some(n) = counter_of_name(name) {
            lemma_counter_below_million(name, n);
        }
    }
}

/// Read the six-digit counter from a scanner file name.
///
/// Name format: `doc{NNNNNN}{timestamp}.pdf`; the counter is at bytes `3..9`.
pub fn counter_from_file_name(name: &str) -> (r: Result<u32, ProcessorError>)
    ensures
        counter_outcome(name@, r),
        r matches Ok(n) ==> n < 1000000,
{
    let len = name.as_bytes().len();
    assert(len as nat == encode_utf8(name@).len());
    if len < 9 {
        let mut reason = String::from_str("filename too short (need ≥9 chars, got ");
        let digits = decimal_string(len as u64);
        reason.append(digits.as_str());
        reason.append(")");
        assert(reason@ == too_short_reason(len as nat));
        return Err(ProcessorError::FilenameParseError { filename: String::from_str(name), reason });
    }
    if !(name.is_char_boundary(3) && name.is_char_boundary(9)) {
        proof {
            reveal_strlit("counter segment (bytes 3..9) splits a multi-byte character");
        }
        return Err(
            ProcessorError::FilenameParseError {
                filename: String::from_str(name),
                reason: String::from_str(
                    "counter segment (bytes 3..9) splits a multi-byte character",
                ),
            },
        );
    }
    let ghost b = name.spec_bytes();
    let (_, rest) = name.split_at(3);
    proof {
        lemma_boundary_after_split(b, 3, 9);
    }
    let (segment, _) = rest.split_at(6);
    proof {
        assert(segment.spec_bytes() =~= b.subrange(3, 9));
        assert(segment@ == decode_utf8(encode_utf8(segment@)));
    }
    let cs = chars_of(segment);
    assert(cs@ == counter_segment(name@));
    let mut k: usize = 0;
    while k < cs.len()
        invariant
            k <= cs@.len(),
            forall|i: int| 0 <= i < k ==> is_digit(#[trigger] cs@[i]),
            cs@ == counter_segment(name@),
            cs@ == segment@,
            encode_utf8(name@).len() >= 9,
            counter_slice_ok(name@),
        decreases cs@.len() - k,
    {
        if !('0' <= cs[k] && cs[k] <= '9') {
            assert(!is_digit(cs@[k as int]));
            let mut reason = String::from_str("counter segment '");
            reason.append(segment);
            reason.append("' is not a number: invalid digit found in string");
            return Err(ProcessorError::FilenameParseError { filename: String::from_str(name), reason });
        }
        k += 1;
    }
    match parse_u32_range(&cs, 0, cs.len()) {
        Some(n) => {
            assert(cs@.subrange(0, cs@.len() as int) =~= cs@);
            proof {
                lemma_counter_below_million(name@, n);
            }
            Ok(n)
        },
        None => {
            assert(cs@.subrange(0, cs@.len() as int) =~= cs@);
            let mut reason = String::from_str("counter segment '");
            reason.append(segment);
            reason.append("' is not a number: invalid digit found in string");
            Err(ProcessorError::FilenameParseError { filename: String::from_str(name), reason })
        },
    }
}

/// A boundary at `j` stays a boundary, at `j - i`, of the part after a boundary `i`.
pub(crate) proof fn lemma_boundary_after_split(b: Seq<u8>, i: int, j: int)
    requires
        valid_utf8(b),
        0 <= i <= j <= b.len(),
        is_char_boundary(b, i),
        is_char_boundary(b, j),
    ensures
        valid_utf8(b.subrange(i, b.len() as int)),
        is_char_boundary(b.subrange(i, b.len() as int), j - i),
{
    let rest = b.subrange(i, b.len() as int);
    vstd::utf8::valid_utf8_split(b, i);
    if j == b.len() {
        vstd::utf8::is_char_boundary_start_end_of_seq(rest);
        assert(rest.len() == j - i);
    } else {
        vstd::utf8::is_char_boundary_iff_not_is_continuation_byte(b, j);
        vstd::utf8::is_char_boundary_iff_not_is_continuation_byte(rest, j - i);
        assert(rest[j - i] == b[j]);
    }
}


/// The reason given for a path without a file name.
pub open spec fn unreadable_name_reason() -> Seq<char> {
    "cannot read filename as UTF-8"@
}

/// What `extract_counter` gives for a path: the counter of its file name, or a
/// file name error that names the whole path when the path has no file name.
pub open spec fn extract_counter_outcome(path: Seq<char>, r: Result<u32, ProcessorError>) -> bool {
    match path_file_name(path) {
        None => is_filename_error(r, path, unreadable_name_reason()),
        Some(name) => counter_outcome(name, r),
    }
}

/// The counter of a file name, where one can be read from it.
pub open spec fn counter_of_name(name: Seq<char>) -> Option<u32> {
    if encode_utf8(name).len() < 9 || !counter_slice_ok(name) || !all_digits(counter_segment(name)) {
        None
    } else {
        parse_u32(counter_segment(name))
    }
}

/// The counter of a path, where one can be read from its file name.
pub open spec fn counter_of_path(path: Seq<char>) -> Option<u32> {
    match path_file_name(path) {
        None => None,
        Some(name) => counter_of_name(name),
    }
}

/// Extract the 6-digit incrementing counter from a scanner file path.
///
/// Filename format: `doc{NNNNNN}{timestamp}.pdf`, for example
/// `doc00488320260310093843.pdf` gives 4883.
pub fn extract_counter(path: &str) -> (r: Result<u32, ProcessorError>)
    ensures
        extract_counter_outcome(path@, r),
        r matches Ok(n) ==> n < 1000000,
        r is Ok <==> counter_of_path(path@) is Some,
        r matches Ok(n) ==> counter_of_path(path@) == Some(n),
{
    match file_name_of(path) {
        None => Err(
            ProcessorError::FilenameParseError {
                filename: String::from_str(path),
                reason: String::from_str("cannot read filename as UTF-8"),
            },
        ),
        Some(name) => counter_from_file_name(name.as_str()),
    }
}

/// The counter read from a path depends on its file name alone: two paths
/// with the same final component (such as one file seen from two
/// directories) give the same outcome.
pub proof fn lemma_counter_depends_on_file_name(
    p: Seq<char>,
    q: Seq<char>,
    r: Result<u32, ProcessorError>,
)
    requires
        path_file_name(p) is Some,
        path_file_name(p) == path_file_name(q),
    ensures
        extract_counter_outcome(p, r) <==> extract_counter_outcome(q, r),
{
}

/// Index of the last `c` in `s`, or -1.
pub open spec fn last_index_of(s: Seq<char>, c: char) -> int
    decreases s.len(),
{
    if s.len() == 0 {
        -1
    } else if s.last() == c {
        s.len() - 1
    } else {
        last_index_of(s.drop_last(), c)
    }
}

/// The extension of a file name, as `std::path::Path::extension` finds it: the
/// text after the last `.`, unless that `.` starts the name, there is no `.`,
/// or the name is `..`.
pub open spec fn file_extension(name: Seq<char>) -> Option<Seq<char>> {
    let k = last_index_of(name, '.');
    if name == ".."@ || k <= 0 {
        None
    } else {
        Some(name.subrange(k + 1, name.len() as int))
    }
}

/// ASCII upper case letters made lower case; every other character unchanged.
pub open spec fn ascii_lower(c: char) -> char {
    if 'A' <= c && c <= 'Z' {
        ((c as u32) + 32) as char
    } else {
        c
    }
}

/// Equal up to ASCII case, as `str::eq_ignore_ascii_case` decides.
pub open spec fn eq_ignore_ascii_case(a: Seq<char>, b: Seq<char>) -> bool {
    a.len() == b.len() && forall|i: int| 0 <= i < a.len() ==> ascii_lower(#[trigger] a[i])
        == ascii_lower(b[i])
}

/// A file name the scanner writes: it starts with `doc` and has the extension
/// `pdf` in any ASCII case.
pub open spec fn is_scan_name(name: Seq<char>) -> bool {
    &&& file_extension(name) matches Some(e) && eq_ignore_ascii_case(e, "pdf"@)
    &&& name.len() >= 3 && name.take(3) == "doc"@
}

fn lower(c: char) -> (r: char)
    ensures
        r == ascii_lower(c),
{
    if 'A' <= c && c <= 'Z' {
        ((c as u8) + 32) as char
    } else {
        c
    }
}

/// Whether a file name is one the scanner writes.
pub fn is_scan_file_name(name: &str) -> (r: bool)
    ensures
        r == is_scan_name(name@),
{
    proof {
        reveal_strlit("pdf");
        reveal_strlit("doc");
        reveal_strlit("..");
    }
    let cs = chars_of(name);
    let n = cs.len();
    // find the last '.'
    let mut k: usize = n;
    let mut found = false;
    assert(cs@.take(n as int) =~= cs@);
    while k > 0 && !found
        invariant
            k <= n == cs@.len(),
            found ==> k < n && cs@[k as int] == '.' && last_index_of(cs@, '.') == k,
            !found ==> last_index_of(cs@, '.') == last_index_of(cs@.take(k as int), '.'),
        decreases k + (if found { 0int } else { 1int }),
    {
        if cs[k - 1] == '.' {
            assert(cs@.take(k as int).last() == '.');
            k = k - 1;
            found = true;
        } else {
            assert(cs@.take(k as int).drop_last() =~= cs@.take(k - 1));
            k = k - 1;
        }
    }
    proof {
        if !found {
            assert(cs@.take(0) =~= Seq::<char>::empty());
        }
    }
    let is_dotdot = n == 2 && cs[0] == '.' && cs[1] == '.';
    proof {
        if is_dotdot {
            assert(cs@ =~= ".."@);
        } else if n == 2 && cs@ == ".."@ {
            assert(cs@[0] == '.' && cs@[1] == '.');
        }
    }
    let ext_ok = if !found || k == 0 || is_dotdot {
        false
    } else {
        let ghost e = cs@.subrange(k + 1, n as int);
        if n - (k + 1) != 3 {
            false
        } else {
            let r = lower(cs[k + 1]) == 'p' && lower(cs[k + 2]) == 'd' && lower(cs[k + 3]) == 'f';
            proof {
                if r {
                    assert forall|i: int| 0 <= i < e.len() implies ascii_lower(#[trigger] e[i])
                        == ascii_lower("pdf"@[i]) by {
                        assert(e[i] == cs@[k + 1 + i]);
                    }
                } else {
                    assert(e[0] == cs@[k + 1] && e[1] == cs@[k + 2] && e[2] == cs@[k + 3]);
                    assert(!(ascii_lower(e[0]) == ascii_lower("pdf"@[0]) && ascii_lower(e[1])
                        == ascii_lower("pdf"@[1]) && ascii_lower(e[2]) == ascii_lower(
                        "pdf"@[2],
                    )));
                }
            }
            r
        }
    };
    let name_ok = n >= 3 && cs[0] == 'd' && cs[1] == 'o' && cs[2] == 'c';
    proof {
        if name_ok {
            assert(cs@.take(3) =~= "doc"@);
        } else if n >= 3 && cs@.take(3) == "doc"@ {
            assert(cs@.take(3)[0] == 'd' && cs@.take(3)[1] == 'o' && cs@.take(3)[2] == 'c');
        }
    }
    ext_ok && name_ok
}

/// Whether a path looks like a scanner output file to process: its file name
/// starts with `doc` and has the extension `pdf` in any ASCII case.
pub fn is_scan_file(path: &str) -> (r: bool)
    ensures
        r == (path_file_name(path@) matches Some(name) && is_scan_name(name)),
{
    match file_name_of(path) {
        Some(name) => is_scan_file_name(name.as_str()),
        None => false,
    }
}


/// The last `k` decimal digits of `n`, zero padded.
pub open spec fn padded_digits(n: nat, k: nat) -> Seq<char>
    decreases k,
{
    if k == 0 {
        Seq::empty()
    } else {
        padded_digits(n / 10, (k - 1) as nat).push(digit_char(n % 10))
    }
}

proof fn lemma_padded_digits(n: nat, k: nat)
    ensures
        padded_digits(n, k).len() == k,
        forall|i: int| 0 <= i < k ==> is_digit(#[trigger] padded_digits(n, k)[i]),
        k == 6 && n < 1000000 ==> digits_value(padded_digits(n, k)) == n,
    decreases k,
{
    if k > 0 {
        lemma_padded_digits(n / 10, (k - 1) as nat);
        let p = padded_digits(n, k);
        assert forall|i: int| 0 <= i < k implies is_digit(#[trigger] p[i]) by {
            if i < k - 1 {
                assert(p[i] == padded_digits(n / 10, (k - 1) as nat)[i]);
            } else {
                lemma_digit_is_digit(n % 10);
            }
        }
    }
    if k == 6 && n < 1000000 {
        lemma_six_digits_value(n);
    }
}

proof fn lemma_digit_is_digit(d: nat)
    requires
        d < 10,
    ensures
        is_digit(digit_char(d)),
        digit_char(d) as u32 == 48 + d,
{
}

proof fn lemma_digits_value_push(s: Seq<char>, d: nat)
    requires
        d < 10,
    ensures
        digits_value(s.push(digit_char(d))) == digits_value(s) * 10 + d,
{
    lemma_digit_is_digit(d);
    assert(s.push(digit_char(d)).drop_last() =~= s);
}

proof fn lemma_six_digits_value(n: nat)
    requires
        n < 1000000,
    ensures
        digits_value(padded_digits(n, 6)) == n,
{
    let n1 = n / 10;
    let n2 = n1 / 10;
    let n3 = n2 / 10;
    let n4 = n3 / 10;
    let n5 = n4 / 10;
    assert(padded_digits(n5 / 10, 0) =~= Seq::<char>::empty());
    lemma_digits_value_push(padded_digits(n5 / 10, 0), n5 % 10);
    lemma_digits_value_push(padded_digits(n5, 1), n4 % 10);
    lemma_digits_value_push(padded_digits(n4, 2), n3 % 10);
    lemma_digits_value_push(padded_digits(n3, 3), n2 % 10);
    lemma_digits_value_push(padded_digits(n2, 4), n1 % 10);
    lemma_digits_value_push(padded_digits(n1, 5), n % 10);
    assert(n5 / 10 == 0);
}

proof fn lemma_encode_utf8_concat(a: Seq<char>, b: Seq<char>)
    ensures
        encode_utf8(a + b) == encode_utf8(a) + encode_utf8(b),
    decreases a.len(),
{
    if a.len() == 0 {
        assert(a + b =~= b);
        assert(encode_utf8(a) + encode_utf8(b) =~= encode_utf8(b));
    } else {
        lemma_encode_utf8_concat(a.drop_first(), b);
        assert((a + b).drop_first() =~= a.drop_first() + b);
        assert((a + b)[0] == a[0]);
        assert(encode_utf8(a + b) =~= encode_utf8(a) + encode_utf8(b));
    }
}

/// The counter of a file name in the scanner's format `doc{NNNNNN}{rest}`
/// (six digits, zero padded, then anything, such as the timestamp and `.pdf`)
/// is the number `NNNNNN`; its bytes can always be cut out.
pub proof fn lemma_counter_of_scan_name(n: nat, rest: Seq<char>)
    requires
        n < 1000000,
    ensures
        counter_slice_ok("doc"@ + padded_digits(n, 6) + rest),
        counter_segment("doc"@ + padded_digits(n, 6) + rest) == padded_digits(n, 6),
        counter_outcome("doc"@ + padded_digits(n, 6) + rest, Ok(n as u32)),
{
    reveal_strlit("doc");
    let d = padded_digits(n, 6);
    lemma_padded_digits(n, 6);
    let p = "doc"@ + d;
    let name = p + rest;
    assert(vstd::utf8::is_ascii_chars(p)) by {
        assert forall|i: int| 0 <= i < p.len() implies '\0' <= #[trigger] p[i] <= '\u{7f}' by {
            if i >= 3 {
                assert(p[i] == d[i - 3]);
                assert(is_digit(d[i - 3]));
            }
        }
    }
    assert(vstd::utf8::is_ascii_chars(d)) by {
        assert forall|i: int| 0 <= i < d.len() implies '\0' <= #[trigger] d[i] <= '\u{7f}' by {
            assert(is_digit(d[i]));
        }
    }
    vstd::utf8::is_ascii_chars_encode_utf8(p);
    vstd::utf8::is_ascii_chars_encode_utf8(d);
    lemma_encode_utf8_concat(p, rest);
    let b = encode_utf8(name);
    let bp = encode_utf8(p);
    assert(bp.len() == 9);
    assert(b.len() >= 9);
    assert(b.subrange(3, 9) =~= encode_utf8(d)) by {
        assert forall|i: int| 0 <= i < 6 implies #[trigger] b.subrange(3, 9)[i] == encode_utf8(d)[i] by {
            assert(b[3 + i] == bp[3 + i]);
            assert(p[3 + i] == d[i]);
        }
    }
    assert(counter_segment(name) == d);
    // byte 3 is a digit, byte 9 starts the rest (or ends the name)
    assert(is_char_boundary(b, 3)) by {
        vstd::utf8::is_char_boundary_iff_not_is_continuation_byte(b, 3);
        assert(b[3] == bp[3]);
        assert(p[3] == d[0]);
        assert(is_digit(d[0]));
    }
    assert(is_char_boundary(b, 9)) by {
        if rest.len() == 0 {
            assert(name =~= p);
            vstd::utf8::is_char_boundary_start_end_of_seq(b);
        } else {
            vstd::utf8::encode_utf8_first_scalar(rest);
            vstd::utf8::is_char_boundary_iff_not_is_continuation_byte(b, 9);
            assert(b[9] == encode_utf8(rest)[0]);
        }
    }
    assert(d[0] != '+') by {
        assert(is_digit(d[0]));
    }
    assert(unsigned_digits(d) == d);
}

} // verus!
