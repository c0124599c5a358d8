//! Byte-backed strings: UTF-8 encoded byte sequences validated at
//! construction boundaries, with search, slicing, splitting, replacement
//! and case conversion.

use vstd::prelude::*;
use vstd::seq_lib::*;
use vstd::slice::{slice_subrange, slice_to_vec};
use vstd::string::StringSliceAdditionalSpecFns;
use vstd::utf8::{decode_utf8, encode_utf8, valid_utf8};

verus! {

/// Error signalled by the fallible string operations.
#[derive(Debug, Clone, Copy, PartialEq, Eq, Structural)]
pub enum StringError {
    /// The bytes are not a valid UTF-8 encoding.
    InvalidUtf8,
    /// A slicing range is inverted or reaches past the end.
    InvalidIndices,
}

/// String type backed by a byte buffer; the UTF-8 encoding is checked where
/// a buffer enters or leaves as text, not on every byte operation.
#[derive(Debug, Clone, PartialEq, Eq)]
pub struct String {
    bytes: Vec<u8>,
}

impl View for String {
    type V = Seq<u8>;

    closed spec fn view(&self) -> Seq<u8> {
        self.bytes@
    }
}

/// The needle `n` occurs in `h` starting at position `i`.
pub open spec fn matches_at(h: Seq<u8>, n: Seq<u8>, i: int) -> bool {
    0 <= i && i + n.len() <= h.len() && h.subrange(i, i + n.len()) == n
}

/// The needle `n` occurs somewhere in `h`.
pub open spec fn contains_seq(h: Seq<u8>, n: Seq<u8>) -> bool {
    exists|i: int| matches_at(h, n, i)
}

/// The least position at or after `i` where `n` occurs in `h`, or `-1` when
/// it occurs nowhere at or after `i`.
pub open spec fn first_match_from(h: Seq<u8>, n: Seq<u8>, i: int) -> int
    recommends
        0 <= i,
    decreases h.len() - i + 1,
{
    if i < 0 || i + n.len() > h.len() {
        -1
    } else if matches_at(h, n, i) {
        i
    } else {
        first_match_from(h, n, i + 1)
    }
}

/// Splitting `h` by the delimiter `d`: the pieces between occurrences of
/// `d`, scanned left to right; the whole of `h` when `d` is empty or does
/// not occur.
pub open spec fn split_seq(h: Seq<u8>, d: Seq<u8>) -> Seq<Seq<u8>>
    decreases h.len(),
    via split_seq_decreases
{
    let i = first_match_from(h, d, 0);
    if d.len() == 0 || i == -1 {
        seq![h]
    } else {
        seq![h.subrange(0, i)] + split_seq(h.subrange(i + d.len(), h.len() as int), d)
    }
}

/// Joining pieces with a separator between consecutive pieces.
pub open spec fn join_with(parts: Seq<Seq<u8>>, sep: Seq<u8>) -> Seq<u8>
    decreases parts.len(),
{
    if parts.len() == 0 {
        Seq::empty()
    } else if parts.len() == 1 {
        parts[0]
    } else {
        parts[0] + sep + join_with(parts.drop_first(), sep)
    }
}

/// `s` repeated `n` times, end to end.
pub open spec fn repeat_seq(s: Seq<u8>, n: nat) -> Seq<u8>
    decreases n,
{
    if n == 0 {
        Seq::empty()
    } else {
        repeat_seq(s, (n - 1) as nat) + s
    }
}

/// What `str::to_uppercase` returns, as a function of the characters.
pub uninterp spec fn upper_of(s: Seq<char>) -> Seq<char>;

/// What `str::to_lowercase` returns, as a function of the characters.
pub uninterp spec fn lower_of(s: Seq<char>) -> Seq<char>;

/// What `str::trim` returns, as a function of the characters.
pub uninterp spec fn trim_of(s: Seq<char>) -> Seq<char>;

/// A successful `first_match_from` result is a match position at or after
/// the starting point.
proof fn lemma_first_match_from_bounds(h: Seq<u8>, n: Seq<u8>, i: int)
    requires
        0 <= i,
    ensures
        first_match_from(h, n, i) == -1 || (i <= first_match_from(h, n, i) && matches_at(
            h,
            n,
            first_match_from(h, n, i),
        )),
    decreases h.len() - i + 1,
{
    if !(i + n.len() > h.len()) && !matches_at(h, n, i) {
        lemma_first_match_from_bounds(h, n, i + 1);
    }
}

#[via_fn]
proof fn split_seq_decreases(h: Seq<u8>, d: Seq<u8>) {
    lemma_first_match_from_bounds(h, d, 0);
}

/// `first_match_from` finds exactly the least match position at or after
/// its starting point.
proof fn lemma_first_match_from_is_least(h: Seq<u8>, n: Seq<u8>, i: int, p: int)
    requires
        0 <= i <= p,
        matches_at(h, n, p),
        forall|k: int| i <= k < p ==> !matches_at(h, n, k),
    ensures
        first_match_from(h, n, i) == p,
    decreases p - i,
{
    if i < p {
        lemma_first_match_from_is_least(h, n, i + 1, p);
    }
}

/// When `n` occurs nowhere at or after `i`, `first_match_from` reports so.
proof fn lemma_first_match_from_none(h: Seq<u8>, n: Seq<u8>, i: int)
    requires
        0 <= i,
        forall|k: int| i <= k ==> !matches_at(h, n, k),
    ensures
        first_match_from(h, n, i) == -1,
    decreases h.len() - i + 1,
{
    if !(i + n.len() > h.len()) {
        lemma_first_match_from_none(h, n, i + 1);
    }
}

/// Joining one more piece appends a separator and the piece.
proof fn lemma_join_with_push(parts: Seq<Seq<u8>>, sep: Seq<u8>, piece: Seq<u8>)
    requires
        parts.len() >= 1,
    ensures
        join_with(parts.push(piece), sep) == join_with(parts, sep) + sep + piece,
    decreases parts.len(),
{
    if parts.len() == 1 {
        assert(parts.push(piece).drop_first() =~= seq![piece]);
        assert(join_with(seq![piece], sep) == piece);
        assert(join_with(parts.push(piece), sep) == parts[0] + sep + piece);
    } else {
        lemma_join_with_push(parts.drop_first(), sep, piece);
        assert(parts.push(piece).drop_first() =~= parts.drop_first().push(piece));
        assert(join_with(parts, sep) + sep + piece =~= parts[0] + sep + (join_with(
            parts.drop_first(),
            sep,
        ) + sep + piece));
    }
}

/// Relies on `core::str::from_utf8`: it succeeds exactly on UTF-8 encoded
/// bytes, and the resulting string slice is backed by those same bytes.
#[verifier::external_body]
fn bytes_as_str(bytes: &[u8]) -> (r: Option<&str>)
    ensures
        r is Some <==> valid_utf8(bytes@),
        r matches Some(s) ==> s.spec_bytes() == bytes@ && s@ == decode_utf8(bytes@),
{
    core::str::from_utf8(bytes).ok()
}

/// Relies on `str::to_uppercase`: the result depends on the characters
/// alone (Unicode uppercasing, no locale).
#[verifier::external_body]
fn str_upper(s: &str) -> (r: std::string::String)
    ensures
        r@ == upper_of(s@),
{
    s.to_uppercase()
}

/// Relies on `str::to_lowercase`: the result depends on the characters
/// alone (Unicode lowercasing, no locale).
#[verifier::external_body]
fn str_lower(s: &str) -> (r: std::string::String)
    ensures
        r@ == lower_of(s@),
{
    s.to_lowercase()
}

/// Relies on `str::trim`: strips leading and trailing whitespace, a
/// function of the characters alone.
#[verifier::external_body]
fn str_trim(s: &str) -> (r: &str)
    ensures
        r@ == trim_of(s@),
{
    s.trim()
}

/// Relies on `char::encode_utf8`: writes exactly the UTF-8 encoding of the
/// character.
#[verifier::external_body]
fn char_utf8_bytes(ch: char) -> (r: Vec<u8>)
    ensures
        r@ == encode_utf8(seq![ch]),
{
    let mut buf = [0u8; 4];
    ch.encode_utf8(&mut buf).as_bytes().to_vec()
}

/// The bytes of `h` and `n` agree over the whole of `n` when `n` is laid at
/// position `i` of `h`.
fn eq_at(h: &Vec<u8>, n: &Vec<u8>, i: usize) -> (r: bool)
    requires
        i + n@.len() <= h@.len(),
    ensures
        r == matches_at(h@, n@, i as int),
{
    let hl = h.len();
    let nl = n.len();
    let mut j: usize = 0;
    while j < nl
        invariant
            0 <= j <= nl,
            nl == n@.len(),
            hl == h@.len(),
            i + nl <= hl,
            forall|k: int| 0 <= k < j ==> h@[i + k] == n@[k],
        decreases nl - j,
    {
        if h[i + j] != n[j] {
            proof {
                if matches_at(h@, n@, i as int) {
                    assert(h@.subrange(i as int, i + n@.len())[j as int] == h@[i + j]);
                    assert(false);
                }
            }
            return false;
        }
        j = j + 1;
    }
    proof {
        assert(h@.subrange(i as int, i + n@.len()) =~= n@);
    }
    true
}

impl String {
    /// Create a new empty string.
    pub fn new() -> (r: Self)
        ensures
            r@ == Seq::<u8>::empty(),
    {
        Self { bytes: Vec::new() }
    }

    /// A fresh string holding the same bytes.
    fn duplicate(&self) -> (r: Self)
        ensures
            r@ == self@,
    {
        Self { bytes: slice_to_vec(self.bytes.as_slice()) }
    }

    /// The bytes from `start` to `end`, as a fresh string.
    fn slice_part(&self, start: usize, end: usize) -> (r: Self)
        requires
            start <= end <= self@.len(),
        ensures
            r@ == self@.subrange(start as int, end as int),
    {
        Self { bytes: slice_to_vec(slice_subrange(self.bytes.as_slice(), start, end)) }
    }

    /// Create a string from a byte slice; succeeds exactly when the bytes
    /// are valid UTF-8, and then holds exactly those bytes.
    pub fn from_bytes(bytes: &[u8]) -> (r: Result<Self, StringError>)
        ensures
            r is Ok <==> valid_utf8(bytes@),
            r matches Ok(s) ==> s@ == bytes@,
            !valid_utf8(bytes@) ==> r == Err::<Self, StringError>(StringError::InvalidUtf8),
    {
        match bytes_as_str(bytes) {
            Some(_) => Ok(Self { bytes: slice_to_vec(bytes) }),
            None => Err(StringError::InvalidUtf8),
        }
    }

    /// Create a string from a string slice: it holds the slice's UTF-8
    /// encoding.
    pub fn from_str(s: &str) -> (r: Self)
        ensures
            r@ == encode_utf8(s@),
    {
        Self { bytes: slice_to_vec(s.as_bytes()) }
    }

    /// The length in bytes.
    pub fn len(&self) -> (r: u64)
        ensures
            r == self@.len(),
    {
        self.bytes.len() as u64
    }

    /// Whether the string holds no byte.
    pub fn is_empty(&self) -> (r: bool)
        ensures
            r == (self@.len() == 0),
    {
        self.bytes.is_empty()
    }

    /// The underlying bytes.
    pub fn as_bytes(&self) -> (r: &[u8])
        ensures
            r@ == self@,
    {
        self.bytes.as_slice()
    }

    /// The string as a string slice; succeeds exactly when the bytes are
    /// valid UTF-8.
    pub fn as_str(&self) -> (r: Result<&str, StringError>)
        ensures
            r is Ok <==> valid_utf8(self@),
            r matches Ok(s) ==> s@ == decode_utf8(self@) && s.spec_bytes() == self@,
            !valid_utf8(self@) ==> r == Err::<&str, StringError>(StringError::InvalidUtf8),
    {
        match bytes_as_str(self.bytes.as_slice()) {
            Some(s) => Ok(s),
            None => Err(StringError::InvalidUtf8),
        }
    }

    /// Append another string's bytes at the end.
    pub fn push_str(&mut self, other: &String)
        ensures
            final(self)@ == old(self)@ + other@,
    {
        let mut tail = slice_to_vec(other.bytes.as_slice());
        self.bytes.append(&mut tail);
    }

    /// Append one character's UTF-8 encoding at the end.
    pub fn push_char(&mut self, ch: char)
        ensures
            final(self)@ == old(self)@ + encode_utf8(seq![ch]),
    {
        let mut tail = char_utf8_bytes(ch);
        self.bytes.append(&mut tail);
    }

    /// Whether `needle`'s bytes occur contiguously in this string.
    pub fn contains(&self, needle: &String) -> (r: bool)
        requires
            needle@.len() >= 1,
        ensures
            r == contains_seq(self@, needle@),
    {
        match self.find(needle) {
            Some(p) => {
                proof {
                    assert(matches_at(self@, needle@, p as int));
                }
                true
            },
            None => false,
        }
    }

    /// The byte position of the first occurrence of `needle`, or `None`
    /// when it does not occur.
    pub fn find(&self, needle: &String) -> (r: Option<u64>)
        requires
            needle@.len() >= 1,
        ensures
            r matches Some(p) ==> matches_at(self@, needle@, p as int) && forall|k: int|
                0 <= k < p ==> !matches_at(self@, needle@, k),
            r is None ==> forall|k: int| !matches_at(self@, needle@, k),
    {
        let hl = self.bytes.len();
        let nl = needle.bytes.len();
        if nl > hl {
            return None;
        }
        let mut i: usize = 0;
        while i <= hl - nl
            invariant
                hl == self@.len(),
                nl == needle@.len(),
                1 <= nl <= hl,
                0 <= i <= hl - nl + 1,
                forall|k: int| 0 <= k < i ==> !matches_at(self@, needle@, k),
            decreases hl - nl + 1 - i,
        {
            if eq_at(&self.bytes, &needle.bytes, i) {
                return Some(i as u64);
            }
            i = i + 1;
        }
        proof {
            assert forall|k: int| !matches_at(self@, needle@, k) by {
                if k > hl - nl {
                    assert(!matches_at(self@, needle@, k));
                }
            }
        }
        None
    }

    /// The bytes from `start` (inclusive) to `end` (exclusive), as a new
    /// string; fails when the range is inverted or reaches past the end.
    pub fn substring(&self, start: u64, end: u64) -> (r: Result<String, StringError>)
        ensures
            start <= end <= self@.len() ==> (r matches Ok(s) && s@ == self@.subrange(
                start as int,
                end as int,
            )),
            !(start <= end <= self@.len()) ==> r == Err::<String, StringError>(
                StringError::InvalidIndices,
            ),
    {
        let len = self.bytes.len();
        if start > end || end > len as u64 {
            return Err(StringError::InvalidIndices);
        }
        Ok(self.slice_part(start as usize, end as usize))
    }

    /// The string with every character uppercased, when the bytes are valid
    /// UTF-8; a copy of the bytes unchanged otherwise.
    pub fn to_uppercase(&self) -> (r: String)
        ensures
            valid_utf8(self@) ==> r@ == encode_utf8(upper_of(decode_utf8(self@))),
            !valid_utf8(self@) ==> r@ == self@,
    {
        match bytes_as_str(self.bytes.as_slice()) {
            Some(s) => {
                let up = str_upper(s);
                String { bytes: slice_to_vec(up.as_str().as_bytes()) }
            },
            None => self.duplicate(),
        }
    }

    /// The string with every character lowercased, when the bytes are valid
    /// UTF-8; a copy of the bytes unchanged otherwise.
    pub fn to_lowercase(&self) -> (r: String)
        ensures
            valid_utf8(self@) ==> r@ == encode_utf8(lower_of(decode_utf8(self@))),
            !valid_utf8(self@) ==> r@ == self@,
    {
        match bytes_as_str(self.bytes.as_slice()) {
            Some(s) => {
                let low = str_lower(s);
                String { bytes: slice_to_vec(low.as_str().as_bytes()) }
            },
            None => self.duplicate(),
        }
    }

    /// The string without leading and trailing whitespace, when the bytes
    /// are valid UTF-8; a copy of the bytes unchanged otherwise.
    pub fn trim(&self) -> (r: String)
        ensures
            valid_utf8(self@) ==> r@ == encode_utf8(trim_of(decode_utf8(self@))),
            !valid_utf8(self@) ==> r@ == self@,
    {
        match bytes_as_str(self.bytes.as_slice()) {
            Some(s) => {
                let trimmed = str_trim(s);
                String { bytes: slice_to_vec(trimmed.as_bytes()) }
            },
            None => self.duplicate(),
        }
    }

    /// The pieces of this string between occurrences of `delimiter`, left
    /// to right; the whole string alone when the delimiter is empty or
    /// does not occur.
    pub fn split(&self, delimiter: &String) -> (r: Vec<String>)
        ensures
            r@.map_values(|s: String| s@) == split_seq(self@, delimiter@),
        decreases self@.len(),
    {
        if delimiter.is_empty() {
            let mut result: Vec<String> = Vec::new();
            result.push(self.duplicate());
            proof {
                assert(result@.map_values(|s: String| s@) =~= split_seq(self@, delimiter@));
            }
            return result;
        }
        match self.find(delimiter) {
            Some(p) => {
                proof {
                    lemma_first_match_from_is_least(self@, delimiter@, 0, p as int);
                }
                let dl = delimiter.bytes.len();
                let len = self.bytes.len();
                let head = self.slice_part(0, p as usize);
                let tail = self.slice_part(p as usize + dl, len);
                let mut rest = tail.split(delimiter);
                let mut result: Vec<String> = Vec::new();
                result.push(head);
                result.append(&mut rest);
                proof {
                    assert(result@.map_values(|s: String| s@) =~= split_seq(self@, delimiter@));
                }
                result
            },
            None => {
                proof {
                    lemma_first_match_from_none(self@, delimiter@, 0);
                }
                let mut result: Vec<String> = Vec::new();
                result.push(self.duplicate());
                proof {
                    assert(result@.map_values(|s: String| s@) =~= split_seq(self@, delimiter@));
                }
                result
            },
        }
    }

    /// This string repeated `n` times, end to end.
    pub fn repeat(&self, n: u64) -> (r: String)
        ensures
            r@ == repeat_seq(self@, n as nat),
    {
        let mut result = String::new();
        let mut i: u64 = 0;
        while i < n
            invariant
                0 <= i <= n,
                result@ == repeat_seq(self@, i as nat),
            decreases n - i,
        {
            result.push_str(self);
            i = i + 1;
        }
        result
    }

    /// Every occurrence of `from` replaced by `to`, scanning left to right;
    /// the string unchanged when `from` is empty or does not occur.
    pub fn replace(&self, from: &String, to: &String) -> (r: String)
        ensures
            r@ == join_with(split_seq(self@, from@), to@),
    {
        let parts = self.split(from);
        let n = parts.len();
        proof {
            assert(parts@.map_values(|s: String| s@).len() >= 1) by {
                lemma_split_seq_len(self@, from@);
            }
        }
        let first = &parts[0];
        let mut result = first.duplicate();
        let mut i: usize = 1;
        while i < n
            invariant
                1 <= i <= n,
                n == parts@.len(),
                result@ == join_with(parts@.map_values(|s: String| s@).subrange(0, i as int), to@),
            decreases n - i,
        {
            result.push_str(to);
            result.push_str(&parts[i]);
            proof {
                let views = parts@.map_values(|s: String| s@);
                assert(views.subrange(0, i + 1) =~= views.subrange(0, i as int).push(
                    views[i as int],
                ));
                lemma_join_with_push(views.subrange(0, i as int), to@, views[i as int]);
            }
            i = i + 1;
        }
        proof {
            let views = parts@.map_values(|s: String| s@);
            assert(views.subrange(0, n as int) =~= views);
        }
        result
    }

    /// Whether this string's bytes begin with `prefix`'s bytes.
    pub fn starts_with(&self, prefix: &String) -> (r: bool)
        ensures
            r == prefix@.is_prefix_of(self@),
    {
        let nl = prefix.bytes.len();
        if nl > self.bytes.len() {
            return false;
        }
        let r = eq_at(&self.bytes, &prefix.bytes, 0);
        proof {
            assert(self@.subrange(0, nl as int) == self@.take(nl as int));
        }
        r
    }

    /// Whether this string's bytes end with `suffix`'s bytes.
    pub fn ends_with(&self, suffix: &String) -> (r: bool)
        ensures
            r == suffix@.is_suffix_of(self@),
    {
        let hl = self.bytes.len();
        let nl = suffix.bytes.len();
        if nl > hl {
            return false;
        }
        let r = eq_at(&self.bytes, &suffix.bytes, hl - nl);
        proof {
            assert(self@.subrange(hl - nl, hl - nl + suffix@.len()) == self@.skip(hl - nl));
        }
        r
    }
}

impl Default for String {
    /// The empty string.
    fn default() -> (r: Self)
        ensures
            r@ == Seq::<u8>::empty(),
    {
        Self::new()
    }
}

/// A split has at least one piece.
proof fn lemma_split_seq_len(h: Seq<u8>, d: Seq<u8>)
    ensures
        split_seq(h, d).len() >= 1,
    decreases h.len(),
{
    let i = first_match_from(h, d, 0);
    if !(d.len() == 0 || i == -1) {
        lemma_first_match_from_bounds(h, d, 0);
        lemma_split_seq_len(h.subrange(i + d.len(), h.len() as int), d);
    }
}

} // verus!
