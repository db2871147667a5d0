//! Snapshot loader: a packed snapshot is a ZIP archive holding the
//! entries `time` (an ASCII decimal number of minutes), `contest` and
//! `runs` (text), each at the archive root or under `./`, `sample/` or
//! `./sample/`. The loader unpacks the bytes it is handed; fetching
//! those bytes from the network or the disk is the caller's business.

use vstd::prelude::*;

verus! {

use vstd::string::StringExecFns;
use vstd::utf8::decode_utf8;
use vstd::utf8::encode_utf8;
use vstd::utf8::valid_utf8;

/// Failures while loading a snapshot.
#[derive(Clone, Debug, PartialEq, Eq)]
pub enum LoaderError {
    /// The snapshot bytes could not be fetched at all.
    Fetch(String),
    /// The bytes are not a ZIP archive.
    NotAZip,
    /// The archive misses one of the expected entries.
    MissingEntry(String),
    /// An entry is not valid UTF-8 text.
    UtfDecode,
    /// The `time` entry is not a decimal number.
    Parse,
}

/// Whether the bytes form a readable ZIP archive.
pub uninterp spec fn zip_ok(data: Seq<u8>) -> bool;

/// The content of the named archive entry, or nothing when the entry
/// is absent or cannot be unpacked. The result depends on the archive
/// bytes and the name alone.
pub uninterp spec fn zip_entry(data: Seq<u8>, name: Seq<char>) -> Option<Seq<u8>>;

/// Relies on `zip::ZipArchive::new`, `zip::ZipArchive::by_name` and
/// `std::io::Read::read_to_end`: opening the archive over the given
/// bytes, looking up the entry by its exact name, and decompressing
/// its content.
#[verifier::external_body]
fn read_zip_entry(data: &Vec<u8>, name: &str) -> (r: Result<Vec<u8>, LoaderError>)
    ensures
        r is Ok <==> (zip_ok(data@) && zip_entry(data@, name@) is Some),
        r matches Ok(b) ==> zip_entry(data@, name@) == Some(b@),
        r matches Err(e) ==> if !zip_ok(data@) {
            e == LoaderError::NotAZip
        } else {
            e matches LoaderError::MissingEntry(n) && n@ == name@
        },
{
    let cursor = std::io::Cursor::new(data);
    let mut archive = match zip::ZipArchive::new(cursor) {
        Ok(z) => z,
        Err(_) => return Err(LoaderError::NotAZip),
    };
    let mut file = match archive.by_name(name) {
        Ok(f) => f,
        Err(_) => return Err(LoaderError::MissingEntry(name.to_string())),
    };
    let mut buffer = Vec::new();
    match std::io::Read::read_to_end(&mut file, &mut buffer) {
        Ok(_) => Ok(buffer),
        Err(_) => Err(LoaderError::MissingEntry(name.to_string())),
    }
}

/// Relies on `String::from_utf8`: it succeeds exactly on valid UTF-8
/// and then carries the decoded characters of those bytes.
#[verifier::external_body]
fn bytes_to_string(v: Vec<u8>) -> (r: Result<String, LoaderError>)
    ensures
        r is Ok <==> valid_utf8(v@),
        r matches Ok(s) ==> s@ == decode_utf8(v@) && encode_utf8(s@) == v@,
{
    match String::from_utf8(v) {
        Ok(s) => Ok(s),
        Err(_) => Err(LoaderError::UtfDecode),
    }
}

/// The candidate entry names for a bare name, in lookup order.
pub open spec fn dot_name(name: Seq<char>) -> Seq<char> {
    seq!['.', '/'] + name
}

pub open spec fn sample_name(name: Seq<char>) -> Seq<char> {
    seq!['s', 'a', 'm', 'p', 'l', 'e', '/'] + name
}

pub open spec fn dot_sample_name(name: Seq<char>) -> Seq<char> {
    seq!['.', '/'] + sample_name(name)
}

/// The first of the four candidate locations that holds the entry.
pub open spec fn entry_lookup(data: Seq<u8>, name: Seq<char>) -> Option<Seq<u8>> {
    if zip_entry(data, name) is Some {
        zip_entry(data, name)
    } else if zip_entry(data, dot_name(name)) is Some {
        zip_entry(data, dot_name(name))
    } else if zip_entry(data, sample_name(name)) is Some {
        zip_entry(data, sample_name(name))
    } else {
        zip_entry(data, dot_sample_name(name))
    }
}

/// Read an entry from the archive, trying the bare name, then `./`,
/// `sample/` and `./sample/` in that order.
pub fn read_from_zip(data: &Vec<u8>, name: &str) -> (r: Result<Vec<u8>, LoaderError>)
    ensures
        !zip_ok(data@) ==> (r matches Err(e) && e == LoaderError::NotAZip),
        zip_ok(data@) ==> match entry_lookup(data@, name@) {
            Some(v) => r matches Ok(b) && b@ == v,
            None => r matches Err(e) && (e matches LoaderError::MissingEntry(n) && n@ == name@),
        },
{
    proof {
        reveal_strlit("./");
        reveal_strlit("sample/");
    }
    match read_zip_entry(data, name) {
        Ok(b) => Ok(b),
        Err(LoaderError::NotAZip) => Err(LoaderError::NotAZip),
        Err(_) => {
            let dotted = String::from_str("./").concat(name);
            proof {
                assert(dotted@ =~= dot_name(name@));
            }
            match read_zip_entry(data, dotted.as_str()) {
                Ok(b) => Ok(b),
                Err(_) => {
                    let sampled = String::from_str("sample/").concat(name);
                    proof {
                        assert(sampled@ =~= sample_name(name@));
                    }
                    match read_zip_entry(data, sampled.as_str()) {
                        Ok(b) => Ok(b),
                        Err(_) => {
                            let dot_sampled = String::from_str("./").concat(sampled.as_str());
                            proof {
                                assert(dot_sampled@ =~= dot_sample_name(name@));
                            }
                            match read_zip_entry(data, dot_sampled.as_str()) {
                                Ok(b) => Ok(b),
                                Err(_) => Err(LoaderError::MissingEntry(name.to_owned())),
                            }
                        },
                    }
                },
            }
        },
    }
}

/// Whether the character is a decimal digit.
pub open spec fn is_dec_digit(c: char) -> bool {
    '0' <= c && c <= '9'
}

/// The number denoted by a digit sequence.
pub open spec fn dec_value(s: Seq<char>) -> int
    decreases s.len(),
{
    if s.len() == 0 {
        0
    } else {
        dec_value(s.drop_last()) * 10 + (s.last() as int - '0' as int)
    }
}

/// The digit part of a signed literal: everything after an optional
/// leading sign.
pub open spec fn decimal_digits(s: Seq<char>) -> Seq<char> {
    if s.len() > 0 && (s[0] == '-' || s[0] == '+') {
        s.drop_first()
    } else {
        s
    }
}

pub open spec fn all_digits(s: Seq<char>) -> bool {
    forall|i: int| 0 <= i < s.len() ==> is_dec_digit(#[trigger] s[i])
}

/// A signed decimal literal of at most 18 digits: an optional sign
/// followed by one or more digits. The digit bound keeps every such
/// literal comfortably inside `i64`.
pub open spec fn valid_decimal(s: Seq<char>) -> bool {
    1 <= decimal_digits(s).len() <= 18 && all_digits(decimal_digits(s))
}

/// The value denoted by a valid signed decimal literal.
pub open spec fn decimal_value(s: Seq<char>) -> int {
    if s.len() > 0 && s[0] == '-' {
        -dec_value(decimal_digits(s))
    } else {
        dec_value(decimal_digits(s))
    }
}

proof fn lemma_dec_value_bound(s: Seq<char>, bound: int)
    requires
        forall|i: int| 0 <= i < s.len() ==> is_dec_digit(#[trigger] s[i]),
        s.len() <= bound,
        0 <= bound <= 18,
    ensures
        0 <= dec_value(s) < pow10(bound),
    decreases s.len(),
{
    if s.len() == 0 {
        lemma_pow10_pos(bound);
    } else if s.len() > 0 {
        assert forall|i: int| 0 <= i < s.drop_last().len() implies is_dec_digit(
            #[trigger] s.drop_last()[i],
        ) by {
            assert(s.drop_last()[i] == s[i]);
        }
        lemma_dec_value_bound(s.drop_last(), bound - 1);
        assert(pow10(bound) == 10 * pow10(bound - 1));
        assert(0 <= s.last() as int - '0' as int <= 9);
    }
}

pub open spec fn pow10(n: int) -> int
    decreases n,
{
    if n <= 0 {
        1
    } else {
        10 * pow10(n - 1)
    }
}

proof fn lemma_pow10_pos(n: int)
    ensures
        pow10(n) >= 1,
    decreases n,
{
    if n > 0 {
        lemma_pow10_pos(n - 1);
    }
}

proof fn lemma_pow10_mono(a: int, b: int)
    requires
        a <= b,
    ensures
        pow10(a) <= pow10(b),
    decreases b,
{
    if b > 0 && a < b {
        lemma_pow10_mono(a, b - 1);
        lemma_pow10_pos(b - 1);
    }
}

proof fn lemma_pow10_cap()
    ensures
        pow10(18) == 1000000000000000000,
{
    reveal_with_fuel(pow10, 20);
}

/// Parse a signed decimal integer, as the `time` entry of a snapshot
/// holds one. Returns nothing unless the whole string is an optional
/// sign followed by 1 to 18 digits.
pub fn parse_decimal(s: &str) -> (r: Option<i64>)
    ensures
        match r {
            Some(v) => valid_decimal(s@) && v as int == decimal_value(s@),
            None => !valid_decimal(s@),
        },
{
    let n = s.unicode_len();
    if n == 0 {
        return None;
    }
    let first = s.get_char(0);
    let negative = first == '-';
    let start: usize = if first == '-' || first == '+' {
        1
    } else {
        0
    };
    let ghost digits = decimal_digits(s@);
    proof {
        assert forall|i: int| 0 <= i < digits.len() implies digits[i] == s@[i + start] by {}
    }
    let count = n - start;
    if count == 0 || count > 18 {
        return None;
    }
    let mut acc: i64 = 0;
    let mut i: usize = start;
    while i < n
        invariant
            n == s@.len(),
            start <= i <= n,
            start <= 1,
            1 <= n - start <= 18,
            digits == decimal_digits(s@),
            digits.len() == n - start,
            forall|k: int| 0 <= k < digits.len() ==> digits[k] == s@[k + start],
            forall|k: int| 0 <= k < i - start ==> is_dec_digit(#[trigger] digits[k]),
            acc == dec_value(digits.take(i - start)),
            0 <= acc < pow10(i - start),
        decreases n - i,
    {
        let c = s.get_char(i);
        if c < '0' || c > '9' {
            proof {
                assert(!is_dec_digit(digits[i - start]));
                assert(!valid_decimal(s@)) by {
                    if valid_decimal(s@) {
                        assert(is_dec_digit(digits[i - start]));
                    }
                }
            }
            return None;
        }
        proof {
            assert(digits.take(i - start + 1).drop_last() =~= digits.take(i - start));
            assert(digits.take(i - start + 1).last() == digits[i - start]);
            lemma_pow10_pos(i - start);
            lemma_pow10_mono(i - start + 1, 18);
            lemma_pow10_cap();
        }
        let d = (c as u32) - ('0' as u32);
        acc = acc * 10 + (d as i64);
        i = i + 1;
    }
    proof {
        assert(digits.take(n - start) =~= digits);
        lemma_pow10_cap();
        lemma_pow10_mono(n - start, 18);
        lemma_dec_value_bound(digits, 18);
    }
    if negative {
        Some(-acc)
    } else {
        Some(acc)
    }
}

/// A well-formed snapshot archive: a readable ZIP whose `time`,
/// `contest` and `runs` entries exist (under the fallback locations),
/// decode as UTF-8, and whose time text is a decimal number.
pub open spec fn snapshot_ok(data: Seq<u8>) -> bool {
    &&& zip_ok(data)
    &&& entry_lookup(data, "time"@) matches Some(tb) && valid_utf8(tb) && valid_decimal(
        decode_utf8(tb),
    )
    &&& entry_lookup(data, "contest"@) matches Some(cb) && valid_utf8(cb)
    &&& entry_lookup(data, "runs"@) matches Some(rb) && valid_utf8(rb)
}

/// Unpack a snapshot archive into its clock value and the raw text of
/// the `contest` and `runs` entries. The three entries are found under
/// their usual fallback locations; failures name what went wrong.
pub fn load_snapshot(data: &Vec<u8>) -> (r: Result<(i64, String, String), LoaderError>)
    ensures
        r is Ok <==> snapshot_ok(data@),
        r matches Ok(t) ==> {
            &&& zip_ok(data@)
            &&& entry_lookup(data@, "time"@) matches Some(tb) && valid_utf8(tb) && ({
                let ts = decode_utf8(tb);
                valid_decimal(ts) && t.0 as int == decimal_value(ts)
            })
            &&& entry_lookup(data@, "contest"@) matches Some(cb) && valid_utf8(cb) && t.1@
                == decode_utf8(cb)
            &&& entry_lookup(data@, "runs"@) matches Some(rb) && valid_utf8(rb) && t.2@
                == decode_utf8(rb)
        },
        r matches Err(e) ==> match e {
            LoaderError::NotAZip => !zip_ok(data@),
            LoaderError::MissingEntry(_) => zip_ok(data@) && (entry_lookup(data@, "time"@) is None
                || entry_lookup(data@, "contest"@) is None || entry_lookup(
                data@,
                "runs"@,
            ) is None),
            LoaderError::UtfDecode => zip_ok(data@),
            LoaderError::Parse => zip_ok(data@) && (entry_lookup(
                data@,
                "time"@,
            ) matches Some(tb) && valid_utf8(tb) && !valid_decimal(decode_utf8(tb))),
            LoaderError::Fetch(_) => false,
        },
{
    let time_bytes = match read_from_zip(data, "time") {
        Ok(b) => b,
        Err(e) => {
            return Err(e);
        },
    };
    let time_text = match bytes_to_string(time_bytes) {
        Ok(s) => s,
        Err(_) => {
            return Err(LoaderError::UtfDecode);
        },
    };
    let time_value = match parse_decimal(time_text.as_str()) {
        Some(v) => v,
        None => {
            return Err(LoaderError::Parse);
        },
    };
    let contest_bytes = match read_from_zip(data, "contest") {
        Ok(b) => b,
        Err(e) => {
            return Err(e);
        },
    };
    let contest_text = match bytes_to_string(contest_bytes) {
        Ok(s) => s,
        Err(_) => {
            return Err(LoaderError::UtfDecode);
        },
    };
    let runs_bytes = match read_from_zip(data, "runs") {
        Ok(b) => b,
        Err(e) => {
            return Err(e);
        },
    };
    let runs_text = match bytes_to_string(runs_bytes) {
        Ok(s) => s,
        Err(_) => {
            return Err(LoaderError::UtfDecode);
        },
    };
    Ok((time_value, contest_text, runs_text))
}

} // verus!
