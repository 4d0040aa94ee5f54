//! Directory lifecycle state: exclusive-lock bookkeeping, the monotonic
//! file-number allocator, filename synthesis, and the manifest format.
//!
//! The surrounding layer performs the actual filesystem work (creating
//! the directory, the `LOCK`, `MANIFEST-NNNNNN` and `CURRENT` files, and
//! the atomic rename that publishes `CURRENT`); this module decides what
//! those files hold and how their names are spelled, and parses what is
//! read back.

use vstd::prelude::*;
use vstd::string::StrSliceExecFns;
use vstd::string::StringExecFns;

use crate::storage_errors::StorageError;

verus! {

// ---------------------------------------------------------------------------
// Decimal formatting
// ---------------------------------------------------------------------------

/// The character of one decimal digit.
pub open spec fn digit_char(d: int) -> char {
    if d == 0 {
        '0'
    } else if d == 1 {
        '1'
    } else if d == 2 {
        '2'
    } else if d == 3 {
        '3'
    } else if d == 4 {
        '4'
    } else if d == 5 {
        '5'
    } else if d == 6 {
        '6'
    } else if d == 7 {
        '7'
    } else if d == 8 {
        '8'
    } else {
        '9'
    }
}

/// The decimal digits of a number, most significant first.
pub open spec fn spec_decimal(n: nat) -> Seq<char>
    decreases n,
{
    if n < 10 {
        seq![digit_char(n as int)]
    } else {
        spec_decimal(n / 10) + seq![digit_char((n % 10) as int)]
    }
}

/// The decimal digits of a number, left-padded with zeros to at least 6
/// characters.
pub open spec fn spec_padded6(n: nat) -> Seq<char> {
    if spec_decimal(n).len() >= 6 {
        spec_decimal(n)
    } else {
        Seq::new((6 - spec_decimal(n).len()) as nat, |i: int| '0') + spec_decimal(n)
    }
}

/// The one-character string of one decimal digit.
fn digit_str(d: u64) -> (s: &'static str)
    requires
        d < 10,
    ensures
        s@ == seq![digit_char(d as int)],
{
    proof {
        reveal_strlit("0");
        reveal_strlit("1");
        reveal_strlit("2");
        reveal_strlit("3");
        reveal_strlit("4");
        reveal_strlit("5");
        reveal_strlit("6");
        reveal_strlit("7");
        reveal_strlit("8");
        reveal_strlit("9");
    }
    let s = match d {
        0u64 => "0",
        1u64 => "1",
        2u64 => "2",
        3u64 => "3",
        4u64 => "4",
        5u64 => "5",
        6u64 => "6",
        7u64 => "7",
        8u64 => "8",
        _ => "9",
    };
    proof {
        assert(s@ =~= seq![digit_char(d as int)]);
    }
    s
}

/// Writes a number in decimal.
fn u64_to_decimal(n: u64) -> (s: String)
    ensures
        s@ == spec_decimal(n as nat),
    decreases n,
{
    if n < 10 {
        String::from_str(digit_str(n))
    } else {
        let mut s = u64_to_decimal(n / 10);
        s.append(digit_str(n % 10));
        s
    }
}

/// Writes a number in decimal, zero-padded to at least 6 characters.
fn u64_padded6(n: u64) -> (s: String)
    ensures
        s@ == spec_padded6(n as nat),
{
    let digits = u64_to_decimal(n);
    let count = digits.as_str().unicode_len();
    let mut s = String::new();
    let mut i: usize = count;
    proof {
        reveal_strlit("0");
    }
    while i < 6
        invariant
            count <= i <= 6 || (count >= 6 && i == count),
            count == spec_decimal(n as nat).len(),
            s@.len() == i - count,
            forall|j: int| 0 <= j < s@.len() ==> s@[j] == '0',
        decreases 6 - i,
    {
        proof {
            reveal_strlit("0");
        }
        s.append("0");
        i = i + 1;
    }
    s.append(digits.as_str());
    proof {
        assert(s@ =~= spec_padded6(n as nat));
    }
    s
}

// ---------------------------------------------------------------------------
// Filename synthesis
// ---------------------------------------------------------------------------

/// The kinds of files a database directory holds.
#[derive(Debug, Clone, Copy)]
pub enum Name {
    SSTable,
    WriteAheadLog,
    Manifest,
    Current,
    Lock,
}

/// The file name (without directory) of a kind and number, or `None`
/// when a numbered kind lacks a number or a fixed kind carries one.
pub open spec fn spec_file_name(kind: Name, number: Option<u64>) -> Option<Seq<char>> {
    match kind {
        Name::SSTable => match number {
            Some(n) => Some(spec_padded6(n as nat) + seq!['.', 's', 's', 't']),
            None => None,
        },
        Name::WriteAheadLog => match number {
            Some(n) => Some(spec_padded6(n as nat) + seq!['.', 'l', 'o', 'g']),
            None => None,
        },
        Name::Manifest => match number {
            Some(n) => Some(
                seq!['M', 'A', 'N', 'I', 'F', 'E', 'S', 'T', '-'] + spec_padded6(n as nat),
            ),
            None => None,
        },
        Name::Current => match number {
            Some(_) => None,
            None => Some(seq!['C', 'U', 'R', 'R', 'E', 'N', 'T']),
        },
        Name::Lock => match number {
            Some(_) => None,
            None => Some(seq!['L', 'O', 'C', 'K']),
        },
    }
}

// ---------------------------------------------------------------------------
// The manifest format
// ---------------------------------------------------------------------------

/// Whitespace that may surround the counter value on its manifest line.
pub open spec fn is_manifest_ws(b: u8) -> bool {
    b == 32 || b == 9 || b == 13
}

/// The number of leading whitespace bytes.
pub open spec fn ws_prefix_len(s: Seq<u8>) -> int
    decreases s.len(),
{
    if s.len() == 0 {
        0
    } else if is_manifest_ws(s[0]) {
        1 + ws_prefix_len(s.drop_first())
    } else {
        0
    }
}

/// The number of trailing whitespace bytes.
pub open spec fn ws_suffix_len(s: Seq<u8>) -> int
    decreases s.len(),
{
    if s.len() == 0 {
        0
    } else if is_manifest_ws(s.last()) {
        1 + ws_suffix_len(s.drop_last())
    } else {
        0
    }
}

/// The byte string with surrounding whitespace removed.
pub open spec fn spec_trim(s: Seq<u8>) -> Seq<u8> {
    if ws_prefix_len(s) == s.len() {
        Seq::empty()
    } else {
        s.subrange(ws_prefix_len(s), s.len() - ws_suffix_len(s))
    }
}

/// A position splitting leading whitespace from the rest determines the
/// whitespace prefix length.
proof fn lemma_ws_prefix_unique(s: Seq<u8>, p: int)
    requires
        0 <= p <= s.len(),
        forall|j: int| 0 <= j < p ==> is_manifest_ws(#[trigger] s[j]),
        p < s.len() ==> !is_manifest_ws(s[p]),
    ensures
        ws_prefix_len(s) == p,
    decreases s.len(),
{
    if p == 0 {
    } else {
        assert(forall|j: int| 0 <= j < p - 1 ==> is_manifest_ws(#[trigger] s.drop_first()[j]));
        lemma_ws_prefix_unique(s.drop_first(), p - 1);
    }
}

/// A position splitting trailing whitespace from the rest determines the
/// whitespace suffix length.
proof fn lemma_ws_suffix_unique(s: Seq<u8>, q: int)
    requires
        0 <= q <= s.len(),
        forall|j: int| s.len() - q <= j < s.len() ==> is_manifest_ws(#[trigger] s[j]),
        q < s.len() ==> !is_manifest_ws(s[s.len() - q - 1]),
    ensures
        ws_suffix_len(s) == q,
    decreases s.len(),
{
    if q == 0 {
    } else {
        assert(forall|j: int|
            s.drop_last().len() - (q - 1) <= j < s.drop_last().len() ==> is_manifest_ws(
                #[trigger] s.drop_last()[j],
            ));
        lemma_ws_suffix_unique(s.drop_last(), q - 1);
    }
}

/// All bytes are decimal digits, and there is at least one.
pub open spec fn all_digits(s: Seq<u8>) -> bool {
    s.len() > 0 && forall|j: int| 0 <= j < s.len() ==> 48 <= #[trigger] s[j] <= 57
}

/// The number the digit string denotes, most significant digit first.
pub open spec fn digits_value(s: Seq<u8>) -> int
    decreases s.len(),
{
    if s.len() == 0 {
        0
    } else {
        digits_value(s.drop_last()) * 10 + (s.last() - 48)
    }
}

/// The value of a digit string only grows as digits are appended.
proof fn lemma_digits_value_prefix(s: Seq<u8>, i: int)
    requires
        0 <= i <= s.len(),
        forall|j: int| 0 <= j < s.len() ==> 48 <= #[trigger] s[j] <= 57,
    ensures
        digits_value(s.take(i)) <= digits_value(s),
        digits_value(s) >= 0,
    decreases s.len(),
{
    if s.len() == 0 {
        assert(s.take(i) =~= s);
    } else if i == s.len() {
        assert(s.take(i) =~= s);
        lemma_digits_value_prefix(s.drop_last(), s.len() - 1);
    } else {
        assert(forall|j: int|
            0 <= j < s.drop_last().len() ==> 48 <= #[trigger] s.drop_last()[j] <= 57);
        lemma_digits_value_prefix(s.drop_last(), i);
        assert(s.take(i) =~= s.drop_last().take(i));
        assert(digits_value(s) == digits_value(s.drop_last()) * 10 + (s.last() - 48));
        assert(digits_value(s.drop_last()) * 10 >= digits_value(s.drop_last()));
    }
}

/// The decimal value a digit string parses to, or `None` when the string
/// is empty, holds a non-digit, or overflows 64 bits.
pub open spec fn spec_parse_u64(s: Seq<u8>) -> Option<u64> {
    if all_digits(s) && digits_value(s) <= u64::MAX {
        Some(digits_value(s) as u64)
    } else {
        None
    }
}

/// The bytes of the manifest line key, colon included.
pub open spec fn spec_manifest_key() -> Seq<u8> {
    seq![
        110u8,
        101,
        120,
        116,
        95,
        102,
        105,
        108,
        101,
        95,
        110,
        117,
        109,
        98,
        101,
        114,
        58,
    ]
}

/// What one manifest line contributes: the parsed counter value, when
/// the line starts with the key and the rest (trimmed) is a number.
pub open spec fn spec_line_value(line: Seq<u8>) -> Option<u64> {
    if line.len() >= 17 && line.take(17) == spec_manifest_key() {
        spec_parse_u64(spec_trim(line.skip(17)))
    } else {
        None
    }
}

/// The index of the first newline byte, or the length if there is none.
pub open spec fn first_newline(s: Seq<u8>) -> nat
    decreases s.len(),
{
    if s.len() == 0 {
        0
    } else if s[0] == 10 {
        0
    } else {
        1 + first_newline(s.drop_first())
    }
}

/// A position splitting newline-free bytes from a newline (or the end)
/// determines the first-newline index.
proof fn lemma_first_newline_unique(s: Seq<u8>, p: int)
    requires
        0 <= p <= s.len(),
        forall|j: int| 0 <= j < p ==> #[trigger] s[j] != 10,
        p < s.len() ==> s[p] == 10,
    ensures
        first_newline(s) == p,
    decreases s.len(),
{
    if p == 0 {
    } else {
        assert(forall|j: int| 0 <= j < p - 1 ==> #[trigger] s.drop_first()[j] != 10);
        lemma_first_newline_unique(s.drop_first(), p - 1);
    }
}

/// The counter value recorded in a manifest image: the first line that
/// both starts with the key and parses contributes it; with no such line
/// there is none.
pub open spec fn spec_parse_manifest(data: Seq<u8>) -> Option<u64>
    decreases data.len(),
{
    let nl = first_newline(data) as int;
    if spec_line_value(data.take(nl)) is Some {
        spec_line_value(data.take(nl))
    } else if nl >= data.len() {
        None
    } else {
        spec_parse_manifest(data.skip(nl + 1))
    }
}

/// The key bytes, for prefix comparison.
fn manifest_key() -> (r: Vec<u8>)
    ensures
        r@ == spec_manifest_key(),
{
    let mut v: Vec<u8> = Vec::new();
    v.push(110);
    v.push(101);
    v.push(120);
    v.push(116);
    v.push(95);
    v.push(102);
    v.push(105);
    v.push(108);
    v.push(101);
    v.push(95);
    v.push(110);
    v.push(117);
    v.push(109);
    v.push(98);
    v.push(101);
    v.push(114);
    v.push(58);
    proof {
        assert(v@ =~= spec_manifest_key());
    }
    v
}

/// Removes surrounding whitespace from a byte slice.
fn trim_slice<'a>(s: &'a [u8]) -> (r: &'a [u8])
    ensures
        r@ == spec_trim(s@),
{
    let n = s.len();
    let mut lo: usize = 0;
    loop
        invariant
            0 <= lo <= n,
            n == s@.len(),
            forall|j: int| 0 <= j < lo ==> is_manifest_ws(#[trigger] s@[j]),
        ensures
            0 <= lo <= n,
            forall|j: int| 0 <= j < lo ==> is_manifest_ws(#[trigger] s@[j]),
            lo < n ==> !is_manifest_ws(s@[lo as int]),
            lo == ws_prefix_len(s@),
        decreases n - lo,
    {
        if lo >= n {
            proof {
                lemma_ws_prefix_unique(s@, lo as int);
            }
            break;
        }
        let b = *vstd::slice::slice_index_get(s, lo);
        if !(b == 32 || b == 9 || b == 13) {
            proof {
                lemma_ws_prefix_unique(s@, lo as int);
            }
            break;
        }
        lo = lo + 1;
    }
    if lo == n {
        let r = vstd::slice::slice_subrange(s, n, n);
        proof {
            assert(r@ =~= spec_trim(s@));
        }
        return r;
    }
    let mut hi: usize = n;
    loop
        invariant
            lo < hi <= n || hi == n,
            lo < n,
            n == s@.len(),
            !is_manifest_ws(s@[lo as int]),
            forall|j: int| hi <= j < n ==> is_manifest_ws(#[trigger] s@[j]),
        ensures
            lo < hi <= n,
            forall|j: int| hi <= j < n ==> is_manifest_ws(#[trigger] s@[j]),
            !is_manifest_ws(s@[hi - 1]),
            n - hi == ws_suffix_len(s@),
        decreases hi,
    {
        let b = *vstd::slice::slice_index_get(s, hi - 1);
        if !(b == 32 || b == 9 || b == 13) {
            proof {
                lemma_ws_suffix_unique(s@, n - hi);
            }
            break;
        }
        hi = hi - 1;
    }
    let r = vstd::slice::slice_subrange(s, lo, hi);
    proof {
        assert(r@ =~= spec_trim(s@));
    }
    r
}

/// Parses an unsigned decimal number, rejecting empty input, non-digits
/// and 64-bit overflow.
fn parse_u64_bytes(s: &[u8]) -> (r: Option<u64>)
    ensures
        r == spec_parse_u64(s@),
{
    let n = s.len();
    if n == 0 {
        return None;
    }
    let mut val: u64 = 0;
    let mut i: usize = 0;
    proof {
        assert(s@.take(0) =~= Seq::<u8>::empty());
    }
    while i < n
        invariant
            0 <= i <= n,
            0 < n == s@.len(),
            forall|j: int| 0 <= j < i ==> 48 <= #[trigger] s@[j] <= 57,
            val as int == digits_value(s@.take(i as int)),
        decreases n - i,
    {
        let b = *vstd::slice::slice_index_get(s, i);
        if b < 48 || b > 57 {
            proof {
                assert(!all_digits(s@));
            }
            return None;
        }
        let d = (b - 48) as u64;
        let ghost prefix = s@.take(i as int);
        let ghost next_prefix = s@.take(i + 1);
        proof {
            assert(next_prefix.drop_last() =~= prefix);
            assert(next_prefix.last() == s@[i as int]);
            assert(digits_value(next_prefix) == digits_value(prefix) * 10 + (s@[i as int] - 48));
        }
        let stepped = match val.checked_mul(10) {
            Some(x) => x.checked_add(d),
            None => None,
        };
        match stepped {
            Some(y) => {
                val = y;
            },
            None => {
                proof {
                    assert(digits_value(next_prefix) > u64::MAX);
                    if all_digits(s@) {
                        lemma_digits_value_prefix(s@, i + 1);
                    }
                }
                return None;
            },
        }
        i = i + 1;
    }
    proof {
        assert(s@.take(n as int) =~= s@);
        assert(all_digits(s@));
    }
    Some(val)
}

/// Parses the `next_file_number` counter out of a manifest image:
/// scans the lines in order and returns the first value found, or a
/// `DecodeError` when no line carries one.
pub fn parse_next_file_number(data: &[u8]) -> (r: Result<u64, StorageError>)
    ensures
        match r {
            Ok(n) => spec_parse_manifest(data@) == Some(n),
            Err(e) => spec_parse_manifest(data@) is None && e is DecodeError,
        },
{
    let len = data.len();
    let key = manifest_key();
    let mut start: usize = 0;
    proof {
        assert(data@.skip(0) =~= data@);
    }
    loop
        invariant
            0 <= start <= len,
            len == data@.len(),
            key@ == spec_manifest_key(),
            spec_parse_manifest(data@) == spec_parse_manifest(data@.skip(start as int)),
        decreases len - start,
    {
        let ghost tail = data@.skip(start as int);
        let mut end: usize = start;
        loop
            invariant
                start <= end <= len,
                len == data@.len(),
                forall|j: int| start <= j < end ==> #[trigger] data@[j] != 10,
            ensures
                start <= end <= len,
                forall|j: int| start <= j < end ==> #[trigger] data@[j] != 10,
                end < len ==> data@[end as int] == 10,
            decreases len - end,
        {
            if end >= len {
                break;
            }
            if *vstd::slice::slice_index_get(data, end) == 10 {
                break;
            }
            end = end + 1;
        }
        let ghost nl = (end - start) as int;
        proof {
            assert(forall|j: int| 0 <= j < nl ==> #[trigger] tail[j] != 10);
            lemma_first_newline_unique(tail, nl);
        }
        let line = vstd::slice::slice_subrange(data, start, end);
        proof {
            assert(line@ =~= tail.take(nl));
        }
        let value_opt: Option<u64> = if line.len() >= 17 && crate::encoding::bytes_equal(
            vstd::slice::slice_subrange(line, 0, 17),
            key.as_slice(),
        ) {
            let rest = vstd::slice::slice_subrange(line, 17, line.len());
            proof {
                assert(line@.take(17) =~= line@.subrange(0, 17));
                assert(rest@ =~= line@.skip(17));
            }
            let trimmed = trim_slice(rest);
            parse_u64_bytes(trimmed)
        } else {
            proof {
                if line@.len() >= 17 {
                    assert(line@.take(17) =~= line@.subrange(0, 17));
                }
            }
            None
        };
        proof {
            assert(value_opt == spec_line_value(tail.take(nl)));
        }
        match value_opt {
            Some(v) => {
                return Ok(v);
            },
            None => {
                if end == len {
                    proof {
                        assert(nl >= tail.len());
                        assert(spec_parse_manifest(tail) is None);
                    }
                    return Err(
                        StorageError::DecodeError(
                            "next_file_number not found or invalid".to_string(),
                        ),
                    );
                }
                proof {
                    assert(tail.skip(nl + 1) =~= data@.skip(end + 1));
                }
                start = end + 1;
            },
        }
    }
}

/// The bytes initially written to `MANIFEST-000001`: the line
/// `next_file_number: 2` and a newline.
pub open spec fn spec_initial_manifest_contents() -> Seq<u8> {
    spec_manifest_key() + seq![32u8, 50, 10]
}

/// Builds the initial manifest image.
pub fn initial_manifest_contents() -> (r: Vec<u8>)
    ensures
        r@ == spec_initial_manifest_contents(),
{
    let mut v = manifest_key();
    v.push(32);
    v.push(50);
    v.push(10);
    proof {
        assert(v@ =~= spec_initial_manifest_contents());
    }
    v
}

/// The bytes initially written to `CURRENT`: the name of the first
/// manifest and a newline.
pub open spec fn spec_initial_current_contents() -> Seq<u8> {
    seq![77u8, 65, 78, 73, 70, 69, 83, 84, 45, 48, 48, 48, 48, 48, 49, 10]
}

/// Builds the initial `CURRENT` image.
pub fn initial_current_contents() -> (r: Vec<u8>)
    ensures
        r@ == spec_initial_current_contents(),
{
    let mut v: Vec<u8> = Vec::new();
    v.push(77);
    v.push(65);
    v.push(78);
    v.push(73);
    v.push(70);
    v.push(69);
    v.push(83);
    v.push(84);
    v.push(45);
    v.push(48);
    v.push(48);
    v.push(48);
    v.push(48);
    v.push(48);
    v.push(49);
    v.push(10);
    proof {
        assert(v@ =~= spec_initial_current_contents());
    }
    v
}

/// The name of the first manifest file.
pub fn initial_manifest_name() -> (r: String)
    ensures
        r@ == spec_file_name(Name::Manifest, Some(1)).unwrap(),
{
    proof {
        reveal_strlit("MANIFEST-000001");
        assert(spec_decimal(1) =~= seq!['1']);
        assert("MANIFEST-000001"@ =~= spec_file_name(Name::Manifest, Some(1)).unwrap());
    }
    String::from_str("MANIFEST-000001")
}

/// Reading back the initial manifest yields the initial allocator
/// position, 2.
pub proof fn lemma_initial_manifest_parses()
    ensures
        spec_parse_manifest(spec_initial_manifest_contents()) == Some(2u64),
{
    let data = spec_initial_manifest_contents();
    assert(data.len() == 20);
    assert(forall|j: int| 0 <= j < 19 ==> #[trigger] data[j] != 10);
    assert(data[19] == 10);
    lemma_first_newline_unique(data, 19);
    let line = data.take(19);
    assert(line.take(17) =~= spec_manifest_key());
    let rest = line.skip(17);
    assert(rest =~= seq![32u8, 50]);
    assert(is_manifest_ws(rest[0]) && !is_manifest_ws(rest[1]));
    lemma_ws_prefix_unique(rest, 1);
    lemma_ws_suffix_unique(rest, 0);
    let trimmed = spec_trim(rest);
    assert(trimmed =~= seq![50u8]);
    assert(all_digits(trimmed));
    assert(trimmed.drop_last() =~= Seq::<u8>::empty());
    assert(digits_value(Seq::<u8>::empty()) == 0);
    assert(digits_value(trimmed) == digits_value(trimmed.drop_last()) * 10 + (trimmed.last() - 48));
    assert(digits_value(trimmed) == 2);
    assert(spec_line_value(line) == Some(2u64));
}

/// Directory lifecycle state for one open database: the directory path,
/// fixed for the session, and the next file number to hand out.
#[derive(Debug)]
pub struct FileManager {
    db_dir_path: String,
    next_file_number: u64,
}

impl FileManager {
    /// The directory this manager serves.
    pub closed spec fn spec_db_dir_path(self) -> Seq<char> {
        self.db_dir_path@
    }

    /// The number the next allocation returns.
    pub closed spec fn spec_next_file_number(self) -> u64 {
        self.next_file_number
    }

    /// State for a freshly initialized database: the first two file
    /// numbers are spoken for by `MANIFEST-000001` and the initial
    /// allocator position recorded there, so allocation starts at 2.
    pub fn new(db_dir_path: String) -> (r: FileManager)
        ensures
            r.spec_db_dir_path() == db_dir_path@,
            r.spec_next_file_number() == 2,
    {
        FileManager { db_dir_path, next_file_number: 2 }
    }

    /// State for reopening an existing database, decided from what the
    /// surrounding layer found on disk: if the `LOCK` file already
    /// existed, its contents name the contending process and the open
    /// fails with `AlreadyLocked`; otherwise the active manifest's
    /// contents seed the allocator, and a manifest without a readable
    /// counter line fails with a `DecodeError`.
    pub fn open_existing(
        db_dir_path: String,
        existing_lock: Option<String>,
        manifest_contents: &[u8],
    ) -> (r: Result<FileManager, StorageError>)
        ensures
            match r {
                Ok(fm) => existing_lock is None && spec_parse_manifest(manifest_contents@)
                    == Some(fm.spec_next_file_number()) && fm.spec_db_dir_path() == db_dir_path@,
                Err(e) => match e {
                    StorageError::AlreadyLocked(p) => existing_lock matches Some(l) && p@ == l@,
                    StorageError::DecodeError(_) => existing_lock is None && spec_parse_manifest(
                        manifest_contents@,
                    ) is None,
                    _ => false,
                },
            },
    {
        match existing_lock {
            Some(pid) => Err(StorageError::AlreadyLocked(pid)),
            None => match parse_next_file_number(manifest_contents) {
                Ok(n) => Ok(FileManager { db_dir_path, next_file_number: n }),
                Err(e) => Err(e),
            },
        }
    }

    /// The number the next allocation will return, without allocating.
    pub fn peek_next_file_number(&self) -> (r: u64)
        ensures
            r == self.spec_next_file_number(),
    {
        self.next_file_number
    }

    /// Hands out the next file number. Numbers are unique for the
    /// lifetime of this manager and shared across every file kind.
    pub fn new_file_number(&mut self) -> (r: u64)
        requires
            old(self).spec_next_file_number() < u64::MAX,
        ensures
            r == old(self).spec_next_file_number(),
            final(self).spec_next_file_number() == old(self).spec_next_file_number() + 1,
            final(self).spec_db_dir_path() == old(self).spec_db_dir_path(),
    {
        let r = self.next_file_number;
        self.next_file_number = self.next_file_number + 1;
        r
    }

    /// Spells the path of a file of the given kind: the directory, a
    /// separator, and the kind's name. Numbered kinds require a number
    /// and fixed kinds forbid one; a mismatch is the caller's contract
    /// violation, reported as an error rather than a crash.
    pub fn generate_filename(&self, file_type: Name, number: Option<u64>) -> (r: Result<
        String,
        StorageError,
    >)
        ensures
            match r {
                Ok(p) => spec_file_name(file_type, number) is Some && p@ == self.spec_db_dir_path()
                    + seq!['/'] + spec_file_name(file_type, number).unwrap(),
                Err(e) => spec_file_name(file_type, number) is None && e is ContractViolation,
            },
    {
        proof {
            reveal_strlit("/");
            reveal_strlit(".sst");
            reveal_strlit(".log");
            reveal_strlit("MANIFEST-");
            reveal_strlit("CURRENT");
            reveal_strlit("LOCK");
        }
        let name: String = match file_type {
            Name::SSTable => {
                match number {
                    Some(num) => {
                        let mut s = u64_padded6(num);
                        s.append(".sst");
                        proof {
                            assert(s@ =~= spec_file_name(file_type, number).unwrap());
                        }
                        s
                    },
                    None => {
                        return Err(
                            StorageError::ContractViolation(
                                "SSTable requires a file number!".to_string(),
                            ),
                        );
                    },
                }
            },
            Name::WriteAheadLog => {
                match number {
                    Some(num) => {
                        let mut s = u64_padded6(num);
                        s.append(".log");
                        proof {
                            assert(s@ =~= spec_file_name(file_type, number).unwrap());
                        }
                        s
                    },
                    None => {
                        return Err(
                            StorageError::ContractViolation(
                                "WriteAheadLogs require a file number!".to_string(),
                            ),
                        );
                    },
                }
            },
            Name::Manifest => {
                match number {
                    Some(num) => {
                        let mut s = String::from_str("MANIFEST-");
                        let digits = u64_padded6(num);
                        s.append(digits.as_str());
                        proof {
                            assert(s@ =~= spec_file_name(file_type, number).unwrap());
                        }
                        s
                    },
                    None => {
                        return Err(
                            StorageError::ContractViolation(
                                "Manifests require a file number!".to_string(),
                            ),
                        );
                    },
                }
            },
            Name::Current => {
                match number {
                    Some(_) => {
                        return Err(
                            StorageError::ContractViolation(
                                "Fixed file types should not have a number".to_string(),
                            ),
                        );
                    },
                    None => {
                        let s = String::from_str("CURRENT");
                        proof {
                            assert(s@ =~= spec_file_name(file_type, number).unwrap());
                        }
                        s
                    },
                }
            },
            Name::Lock => {
                match number {
                    Some(_) => {
                        return Err(
                            StorageError::ContractViolation(
                                "Fixed file types should not have a number".to_string(),
                            ),
                        );
                    },
                    None => {
                        let s = String::from_str("LOCK");
                        proof {
                            assert(s@ =~= spec_file_name(file_type, number).unwrap());
                        }
                        s
                    },
                }
            },
        };
        let mut path = self.db_dir_path.clone();
        path.append("/");
        path.append(name.as_str());
        proof {
            assert(path@ =~= self.spec_db_dir_path() + seq!['/'] + spec_file_name(
                file_type,
                number,
            ).unwrap());
        }
        Ok(path)
    }
}

} // verus!
