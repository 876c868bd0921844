//! Request handling: the server's counters, how a request path is dispatched,
//! which files get an immutable cache policy, and how the length of a served
//! body is read back from its `Content-Length` header.
use crate::paths::{relative_segments, safe_relative, strings_view};
use crate::text::{decimal, digit_char};
use vstd::utf8::*;
use std::path::PathBuf;
use std::time::Instant;
use vstd::prelude::*;
use vstd::string::*;

verus! {

/// `Cache-Control` value sent with splat frame files.
pub const IMMUTABLE_CACHE_CONTROL: &'static str = "public, max-age=31536000, immutable";

/// `a + b`, wrapping around at 2^64, as `AtomicU64::fetch_add` adds.
pub open spec fn wrapped_add(a: u64, b: u64) -> u64 {
    if a + b > u64::MAX {
        (a + b - 0x1_0000_0000_0000_0000) as u64
    } else {
        (a + b) as u64
    }
}

#[verifier::external_type_specification]
#[verifier::external_body]
pub struct ExInstant(Instant);

/// Calls `std::time::Instant::now`; nothing is claimed of the clock.
#[verifier::external_body]
fn now() -> Instant {
    Instant::now()
}

/// Server counters.
pub struct Stats {
    /// Requests that reached the library tree.
    pub requests: u64,
    /// Bytes announced by the `Content-Length` of served files.
    pub bytes: u64,
    /// When the counters started.
    pub started: Instant,
}

impl Default for Stats {
    fn default() -> (r: Stats)
        ensures
            r.requests == 0,
            r.bytes == 0,
    {
        Stats { requests: 0, bytes: 0, started: now() }
    }
}

fn add_wrapping(a: u64, b: u64) -> (r: u64)
    ensures
        r == wrapped_add(a, b),
{
    a.wrapping_add(b)
}

impl Stats {
    /// Counts one more request.
    pub fn record_request(&mut self)
        ensures
            final(self).requests == wrapped_add(old(self).requests, 1),
            final(self).bytes == old(self).bytes,
            final(self).started == old(self).started,
    {
        self.requests = add_wrapping(self.requests, 1);
    }

    /// Counts `n` more bytes served.
    pub fn record_bytes(&mut self, n: u64)
        ensures
            final(self).bytes == wrapped_add(old(self).bytes, n),
            final(self).requests == old(self).requests,
            final(self).started == old(self).started,
    {
        self.bytes = add_wrapping(self.bytes, n);
    }
}

/// The counters only grow: each counting step (`Stats::record_request`,
/// `Stats::record_bytes`, and `AppState::begin_request` and
/// `AppState::record_served`, which call them) adds its amount with
/// `wrapped_add`, which, as long as the sum stays within `u64::MAX`, is the
/// plain sum and never lower than the counter it adds to. Those steps keep
/// the start time and the library root as they were.
pub proof fn lemma_counters_never_decrease(counter: u64, n: u64)
    requires
        counter + n <= u64::MAX,
    ensures
        wrapped_add(counter, n) == counter + n,
        wrapped_add(counter, n) >= counter,
{
}

/// Shared server state: the library root and the counters.
pub struct AppState {
    pub root: PathBuf,
    pub stats: Stats,
}

/// Error answers of the library tree, each a status and a plain-text body.
#[derive(Clone, Copy, PartialEq, Eq, Debug)]
pub enum ErrorReply {
    /// The path was refused.
    Forbidden,
    /// Nothing exists at the path.
    NotFound,
    /// The directory exists but cannot be read.
    UnreadableDirectory,
}

impl ErrorReply {
    /// The HTTP status code.
    pub fn status(&self) -> (s: u16)
        ensures
            s == match self {
                ErrorReply::Forbidden => 403u16,
                ErrorReply::NotFound => 404u16,
                ErrorReply::UnreadableDirectory => 500u16,
            },
    {
        match self {
            ErrorReply::Forbidden => 403,
            ErrorReply::NotFound => 404,
            ErrorReply::UnreadableDirectory => 500,
        }
    }

    /// The plain-text body.
    pub fn body(&self) -> (s: &'static str)
        ensures
            s@ == match self {
                ErrorReply::Forbidden => "forbidden"@,
                ErrorReply::NotFound => "not found"@,
                ErrorReply::UnreadableDirectory => "cannot read directory"@,
            },
    {
        match self {
            ErrorReply::Forbidden => "forbidden",
            ErrorReply::NotFound => "not found",
            ErrorReply::UnreadableDirectory => "cannot read directory",
        }
    }
}

/// What to answer once the target's metadata is known.
#[derive(Clone, Copy, PartialEq, Eq, Debug)]
pub enum Target {
    /// A directory: answer its JSON listing.
    Listing,
    /// A file: serve it, with the immutable cache policy when it is a frame.
    File { immutable: bool },
    /// Nothing there, or its metadata cannot be read: answer this error.
    Fail(ErrorReply),
}

/// The index of the last `c` in `s`, or -1.
pub open spec fn last_index_of(s: Seq<char>, c: char) -> int
    decreases s.len(),
{
    if s.len() == 0 {
        -1
    } else if s.last() == c {
        s.len() - 1
    } else {
        last_index_of(s.drop_last(), c)
    }
}

/// The extension of a file name, as `Path::extension` finds it: the text after
/// the last `.`, unless there is no `.`, the only `.` leads the name, or the
/// name is `..`.
pub open spec fn extension(name: Seq<char>) -> Option<Seq<char>> {
    let k = last_index_of(name, '.');
    if name == seq!['.', '.'] || k <= 0 {
        None
    } else {
        Some(name.skip(k + 1))
    }
}

/// A splat frame: a file named `*.sog`, `*.ply` or `*.splat`.
pub open spec fn is_frame_file(name: Seq<char>) -> bool {
    extension(name) == Some("sog"@) || extension(name) == Some("ply"@) || extension(name) == Some(
        "splat"@,
    )
}

proof fn lemma_last_index_bounds(s: Seq<char>, c: char)
    ensures
        -1 <= last_index_of(s, c) < s.len(),
        last_index_of(s, c) >= 0 ==> s[last_index_of(s, c)] == c,
    decreases s.len(),
{
    if s.len() > 0 && s.last() != c {
        lemma_last_index_bounds(s.drop_last(), c);
    }
}

proof fn lemma_last_index_exact(s: Seq<char>, c: char, k: int)
    requires
        0 <= k < s.len(),
        s[k] == c,
        forall|j: int| k < j < s.len() ==> s[j] != c,
    ensures
        last_index_of(s, c) == k,
    decreases s.len(),
{
    if s.last() != c {
        assert forall|j: int| k < j < s.drop_last().len() implies s.drop_last()[j] != c by {
            assert(s.drop_last()[j] == s[j]);
        }
        lemma_last_index_exact(s.drop_last(), c, k);
    }
}

proof fn lemma_last_index_none(s: Seq<char>, c: char)
    requires
        forall|j: int| 0 <= j < s.len() ==> s[j] != c,
    ensures
        last_index_of(s, c) == -1,
    decreases s.len(),
{
    if s.len() > 0 {
        assert forall|j: int| 0 <= j < s.drop_last().len() implies s.drop_last()[j] != c by {
            assert(s.drop_last()[j] == s[j]);
        }
        lemma_last_index_none(s.drop_last(), c);
    }
}

/// A file is a splat frame exactly when the text after the last `.` of its
/// name is `sog`, `ply` or `splat` and that `.` does not lead the name; what
/// stands before the `.` (digits, as in `frame0001.sog`, or anything else)
/// plays no part. So names that end alike are classified alike.
pub proof fn lemma_frame_file_by_extension(name: Seq<char>)
    ensures
        is_frame_file(name) <==> exists|k: int|
            0 < k < name.len() && name[k] == '.' && (forall|j: int|
                k < j < name.len() ==> name[j] != '.') && (#[trigger] name.skip(k + 1) == "sog"@
                || name.skip(k + 1) == "ply"@ || name.skip(k + 1) == "splat"@),
{
    reveal_strlit("sog");
    reveal_strlit("ply");
    reveal_strlit("splat");
    lemma_last_index_bounds(name, '.');
    let k = last_index_of(name, '.');
    if exists|k: int|
        0 < k < name.len() && name[k] == '.' && (forall|j: int|
            k < j < name.len() ==> name[j] != '.') && (#[trigger] name.skip(k + 1) == "sog"@
            || name.skip(k + 1) == "ply"@ || name.skip(k + 1) == "splat"@) {
        let w = choose|w: int|
            0 < w < name.len() && name[w] == '.' && (forall|j: int|
                w < j < name.len() ==> name[j] != '.') && (#[trigger] name.skip(w + 1) == "sog"@
                || name.skip(w + 1) == "ply"@ || name.skip(w + 1) == "splat"@);
        lemma_last_index_exact(name, '.', w);
        if name == seq!['.', '.'] {
            assert(name.skip(w + 1).len() == 0);
        }
    }
    if is_frame_file(name) {
        assert(k > 0);
        if exists|j: int| k < j < name.len() && name[j] == '.' {
            let j = choose|j: int| k < j < name.len() && name[j] == '.';
            lemma_last_index_after(name, '.', j);
        }
        assert(name.skip(k + 1) == "sog"@ || name.skip(k + 1) == "ply"@ || name.skip(k + 1)
            == "splat"@);
    }
}

proof fn lemma_last_index_after(s: Seq<char>, c: char, j: int)
    requires
        0 <= j < s.len(),
        s[j] == c,
    ensures
        last_index_of(s, c) >= j,
    decreases s.len(),
{
    if s.last() != c {
        lemma_last_index_after(s.drop_last(), c, j);
    }
}

/// Whether a file with this name is a splat frame.
pub fn frame_file(name: &str) -> (b: bool)
    ensures
        b == is_frame_file(name@),
{
    let n = name.unicode_len();
    let mut last: usize = 0;
    let mut found = false;
    let mut i: usize = 0;
    proof {
        assert(name@.take(0) =~= Seq::<char>::empty());
    }
    for c in it: name.chars()
        invariant
            n == name@.len(),
            i == it.index(),
            it.seq() == name@,
            i <= n,
            found ==> last == last_index_of(name@.take(i as int), '.'),
            !found ==> last_index_of(name@.take(i as int), '.') == -1,
    {
        proof {
            assert(name@.take(i + 1).drop_last() =~= name@.take(i as int));
            assert(name@.take(i + 1).last() == c);
            lemma_last_index_bounds(name@.take(i as int), '.');
        }
        if c == '.' {
            last = i;
            found = true;
        }
        i = i + 1;
    }
    proof {
        assert(name@.take(n as int) =~= name@);
        lemma_last_index_bounds(name@, '.');
    }
    if !found || last == 0 {
        return false;
    }
    let dots = n == 2 && last == 1 && name.get_char(0) == '.';
    if dots {
        assert(name@ =~= seq!['.', '.']);
        return false;
    }
    assert(name@ != seq!['.', '.']) by {
        if name@ == seq!['.', '.'] {
            assert(name@[0] == '.');
        }
    }
    let ext = name.substring_char(last + 1, n).to_owned();
    assert(ext@ =~= name@.skip(last as int + 1));
    let sog = String::from_str("sog");
    let ply = String::from_str("ply");
    let splat = String::from_str("splat");
    ext == sog || ext == ply || ext == splat
}

/// Decides what to answer for a target: `is_dir` is `None` when its metadata
/// could not be read, `name` its file name.
pub fn classify_target(is_dir: Option<bool>, name: &str) -> (t: Target)
    ensures
        is_dir is None ==> t == Target::Fail(ErrorReply::NotFound),
        is_dir == Some(true) ==> t == Target::Listing,
        is_dir == Some(false) ==> t == (Target::File { immutable: is_frame_file(name@) }),
{
    match is_dir {
        None => Target::Fail(ErrorReply::NotFound),
        Some(true) => Target::Listing,
        Some(false) => Target::File { immutable: frame_file(name) },
    }
}

/// Bytes that `HeaderValue::to_str` accepts: visible ASCII and tab.
pub open spec fn is_header_text(b: Seq<u8>) -> bool {
    forall|i: int| 0 <= i < b.len() ==> (32 <= #[trigger] b[i] < 127 || b[i] == 9)
}

/// ASCII decimal digits only.
pub open spec fn all_digits(d: Seq<u8>) -> bool {
    forall|i: int| 0 <= i < d.len() ==> 48 <= #[trigger] d[i] <= 57
}

/// The number spelled by decimal digits.
pub open spec fn digits_value(d: Seq<u8>) -> nat
    decreases d.len(),
{
    if d.len() == 0 {
        0
    } else {
        digits_value(d.drop_last()) * 10 + (d.last() - 48) as nat
    }
}

/// The digits `u64::from_str` reads: a leading `+` is dropped when more
/// follows.
pub open spec fn unsigned_digits(b: Seq<u8>) -> Seq<u8> {
    if b.len() > 1 && b[0] == 43 {
        b.skip(1)
    } else {
        b
    }
}

/// What `u64::from_str` makes of a text: its value when it is a non-empty run
/// of digits (after an optional `+`) that fits in 64 bits.
pub open spec fn parsed_u64(b: Seq<u8>) -> Option<u64> {
    let d = unsigned_digits(b);
    if d.len() > 0 && all_digits(d) && digits_value(d) <= u64::MAX {
        Some(digits_value(d) as u64)
    } else {
        None
    }
}

/// The length a `Content-Length` header value announces, if it is readable
/// text holding a number.
pub open spec fn content_length(b: Seq<u8>) -> Option<u64> {
    if is_header_text(b) {
        parsed_u64(b)
    } else {
        None
    }
}

proof fn lemma_digits_value_grows(d: Seq<u8>, i: int)
    requires
        0 <= i <= d.len(),
        all_digits(d),
    ensures
        digits_value(d) >= digits_value(d.take(i)),
    decreases d.len() - i,
{
    if i < d.len() {
        lemma_digits_value_grows(d, i + 1);
        assert(d.take(i + 1).drop_last() =~= d.take(i));
        assert(d.take(i + 1).last() == d[i]);
        assert(48 <= d[i]);
    } else {
        assert(d.take(i) =~= d);
    }
}

proof fn lemma_decimal_bytes(n: nat)
    ensures
        is_ascii_chars(decimal(n)),
        decimal(n).len() > 0,
        decimal(n)[0] != '+',
        ({
            let b = decimal(n).map_values(|c: char| c as u8);
            &&& all_digits(b)
            &&& is_header_text(b)
            &&& digits_value(b) == n
        }),
    decreases n,
{
    let f = |c: char| c as u8;
    let d = decimal(n);
    let b = d.map_values(f);
    let dc = if n < 10 { n } else { n % 10 };
    assert(48 <= (digit_char(dc) as u8) <= 57 && digit_char(dc) as u8 == 48 + dc);
    if n < 10 {
        assert(b =~= seq![digit_char(n) as u8]);
        assert(b.drop_last() =~= Seq::<u8>::empty());
    } else {
        let p = decimal(n / 10);
        lemma_decimal_bytes(n / 10);
        assert(b =~= p.map_values(f).push(digit_char(n % 10) as u8));
        assert(b.drop_last() =~= p.map_values(f));
        assert(d[0] == p[0]);
        assert forall|i: int| 0 <= i < b.len() implies 48 <= #[trigger] b[i] <= 57 by {
            if i < p.len() {
                assert(b[i] == p.map_values(f)[i]);
            }
        }
        assert forall|i: int| 0 <= i < d.len() implies '\0' <= #[trigger] d[i] <= '\u{7f}' by {
            if i < p.len() {
                assert(d[i] == p[i]);
            }
        }
        assert(digits_value(b.drop_last()) == n / 10);
        assert(n == (n / 10) * 10 + n % 10);
    }
    assert(b.last() == digit_char(dc) as u8);
    assert(digits_value(b) == digits_value(b.drop_last()) * 10 + (b.last() - 48) as nat);
    assert(all_digits(b));
    assert forall|i: int| 0 <= i < b.len() implies (32 <= #[trigger] b[i] < 127 || b[i] == 9) by {
        assert(48 <= b[i] <= 57);
    }
}

/// A length written in decimal, as the server writes `Content-Length`, is
/// read back as that length.
pub proof fn lemma_content_length_round_trip(n: u64)
    ensures
        content_length(encode_utf8(decimal(n as nat))) == Some(n),
{
    let d = decimal(n as nat);
    lemma_decimal_bytes(n as nat);
    is_ascii_chars_encode_utf8(d);
    assert(encode_utf8(d) =~= d.map_values(|c: char| c as u8));
}

fn header_text(b: &[u8]) -> (r: bool)
    ensures
        r == is_header_text(b@),
{
    let mut i: usize = 0;
    while i < b.len()
        invariant
            i <= b@.len(),
            forall|k: int| 0 <= k < i ==> (32 <= #[trigger] b@[k] < 127 || b@[k] == 9),
        decreases b@.len() - i,
    {
        if !((32 <= b[i] && b[i] < 127) || b[i] == 9) {
            return false;
        }
        i = i + 1;
    }
    true
}

fn parse_u64(b: &[u8]) -> (r: Option<u64>)
    ensures
        r == parsed_u64(b@),
{
    let start: usize = if b.len() > 1 && b[0] == 43 {
        1
    } else {
        0
    };
    let ghost d = unsigned_digits(b@);
    assert(d =~= b@.skip(start as int));
    if start == b.len() {
        return None;
    }
    let mut value: u64 = 0;
    let mut i: usize = start;
    assert(d.take(0) =~= Seq::<u8>::empty());
    while i < b.len()
        invariant
            start <= i <= b@.len(),
            d == b@.skip(start as int),
            d == unsigned_digits(b@),
            value == digits_value(d.take(i - start)),
            all_digits(d.take(i - start)),
        decreases b@.len() - i,
    {
        let ghost k = i - start;
        proof {
            assert(d.take(k + 1).drop_last() =~= d.take(k));
            assert(d.take(k + 1).last() == b@[i as int]);
        }
        let c = b[i];
        if c < 48 || c > 57 {
            assert(!all_digits(d)) by {
                assert(d[k] == c);
            }
            return None;
        }
        let digit = (c - 48) as u64;
        let next = match value.checked_mul(10) {
            None => None,
            Some(t) => t.checked_add(digit),
        };
        match next {
            None => {
                proof {
                    assert(digits_value(d.take(k + 1)) == value * 10 + digit);
                    if all_digits(d) {
                        lemma_digits_value_grows(d, k + 1);
                    }
                }
                return None;
            },
            Some(v) => {
                value = v;
            },
        }
        assert(all_digits(d.take(k + 1))) by {
            assert forall|j: int| 0 <= j < k + 1 implies 48 <= #[trigger] d.take(k + 1)[j] <= 57 by {
                if j < k {
                    assert(d.take(k + 1)[j] == d.take(k)[j]);
                }
            }
        }
        i = i + 1;
    }
    assert(d.take(i - start) =~= d);
    Some(value)
}

/// The length announced by a `Content-Length` header value.
pub fn parse_content_length(b: &[u8]) -> (r: Option<u64>)
    ensures
        r == content_length(b@),
{
    if header_text(b) {
        parse_u64(b)
    } else {
        None
    }
}

impl AppState {
    /// Fresh state for a library root: no requests, no bytes.
    pub fn new(root: PathBuf) -> (s: AppState)
        ensures
            s.root == root,
            s.stats.requests == 0,
            s.stats.bytes == 0,
    {
        AppState { root, stats: Stats::default() }
    }

    /// Counts a request for `path` and resolves it to components below the
    /// root; a refused path is answered `Forbidden`.
    pub fn begin_request(&mut self, path: &str) -> (r: Result<Vec<String>, ErrorReply>)
        ensures
            final(self).root == old(self).root,
            final(self).stats.requests == wrapped_add(old(self).stats.requests, 1),
            final(self).stats.bytes == old(self).stats.bytes,
            final(self).stats.started == old(self).stats.started,
            r is Ok <==> relative_segments(path.spec_bytes()) is Some,
            r is Err ==> r == Err::<Vec<String>, ErrorReply>(ErrorReply::Forbidden),
            r matches Ok(v) ==> relative_segments(path.spec_bytes()) == Some(strings_view(v@)),
    {
        self.stats.record_request();
        match safe_relative(path) {
            Some(v) => Ok(v),
            None => Err(ErrorReply::Forbidden),
        }
    }

    /// Counts the bytes of a served file, given the value of its
    /// `Content-Length` header if it has one.
    pub fn record_served(&mut self, content_length_value: Option<&[u8]>)
        ensures
            final(self).root == old(self).root,
            final(self).stats.requests == old(self).stats.requests,
            final(self).stats.started == old(self).stats.started,
            final(self).stats.bytes == match content_length_value {
                Some(v) => match content_length(v@) {
                    Some(n) => wrapped_add(old(self).stats.bytes, n),
                    None => old(self).stats.bytes,
                },
                None => old(self).stats.bytes,
            },
    {
        if let Some(v) = content_length_value {
            if let Some(n) = parse_content_length(v) {
                self.stats.record_bytes(n);
            }
        }
    }
}

} // verus!
