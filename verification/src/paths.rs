//! Request paths: percent-decoding and splitting into traversal-safe segments.
//!
//! A request path is percent-decoded, decoded as UTF-8 and split on `/`. Empty
//! and `.` segments are dropped; a `..` segment, a segment holding a
//! backslash or a NUL, or one that starts like a Windows drive prefix (an
//! ASCII letter then `:`), makes the whole path refused. What is left is the
//! list of components that, pushed in turn onto the library root, name a
//! place below it, on Unix and on Windows alike.
use vstd::prelude::*;
use vstd::string::*;
use vstd::utf8::*;

verus! {

/// `b` is an ASCII hexadecimal digit (`0-9`, `A-F`, `a-f`).
pub open spec fn is_hex_digit(b: u8) -> bool {
    (0x30 <= b && b <= 0x39) || (0x41 <= b && b <= 0x46) || (0x61 <= b && b <= 0x66)
}

/// The value of a hexadecimal digit.
pub open spec fn hex_value(b: u8) -> int {
    if b <= 0x39 {
        b - 0x30
    } else if b <= 0x46 {
        b - 0x41 + 10
    } else {
        b - 0x61 + 10
    }
}

/// Percent-decoding of a byte string: every `%` followed by two hexadecimal
/// digits stands for the byte they spell; every other byte, a lone `%` among
/// them, stands for itself.
pub open spec fn percent_decoded(b: Seq<u8>) -> Seq<u8>
    decreases b.len(),
{
    if b.len() == 0 {
        Seq::empty()
    } else if b[0] == 0x25u8 && b.len() >= 3 && is_hex_digit(b[1]) && is_hex_digit(b[2]) {
        seq![(hex_value(b[1]) * 16 + hex_value(b[2])) as u8] + percent_decoded(b.skip(3))
    } else {
        seq![b[0]] + percent_decoded(b.skip(1))
    }
}

/// The pieces of `s` between `/` separators, as `str::split('/')` yields them:
/// one more piece than there are separators, empty pieces included.
pub open spec fn split_segments(s: Seq<char>) -> Seq<Seq<char>>
    decreases s.len(),
{
    if s.len() == 0 {
        seq![Seq::empty()]
    } else {
        let prev = split_segments(s.drop_last());
        if s.last() == '/' {
            prev.push(Seq::empty())
        } else {
            prev.update(prev.len() - 1, prev.last().push(s.last()))
        }
    }
}

/// A segment that names the current directory and is dropped.
pub open spec fn is_skipped_segment(g: Seq<char>) -> bool {
    g.len() == 0 || g == seq!['.']
}

/// A segment that Windows reads as a drive prefix (`C:`, `c:name`): an ASCII
/// letter followed by `:`. Pushed onto a path, it would replace the root.
pub open spec fn is_drive_prefix(g: Seq<char>) -> bool {
    g.len() >= 2 && (('A' <= g[0] && g[0] <= 'Z') || ('a' <= g[0] && g[0] <= 'z')) && g[1] == ':'
}

/// A segment that makes the whole path refused: a parent reference, one
/// holding a backslash or a NUL, or a drive prefix.
pub open spec fn is_rejected_segment(g: Seq<char>) -> bool {
    g == seq!['.', '.'] || g.contains('\\') || g.contains('\0') || is_drive_prefix(g)
}

/// One step of the segment filter.
pub open spec fn keep_step(acc: Option<Seq<Seq<char>>>, g: Seq<char>) -> Option<Seq<Seq<char>>> {
    match acc {
        None => None,
        Some(out) => if is_skipped_segment(g) {
            Some(out)
        } else if is_rejected_segment(g) {
            None
        } else {
            Some(out.push(g))
        },
    }
}

/// The kept segments, in order, or `None` when some segment is refused.
pub open spec fn kept_segments(segs: Seq<Seq<char>>) -> Option<Seq<Seq<char>>>
    decreases segs.len(),
{
    if segs.len() == 0 {
        Some(Seq::empty())
    } else {
        keep_step(kept_segments(segs.drop_last()), segs.last())
    }
}

/// The character views of a list of strings.
pub open spec fn strings_view(v: Seq<String>) -> Seq<Seq<char>> {
    v.map_values(|x: String| x@)
}

/// What a request path (given by its bytes) resolves to.
pub open spec fn relative_segments(path: Seq<u8>) -> Option<Seq<Seq<char>>> {
    let d = percent_decoded(path);
    if valid_utf8(d) {
        kept_segments(split_segments(decode_utf8(d)))
    } else {
        None
    }
}

/// A component that can be pushed onto a directory path without leaving it,
/// on Unix and on Windows: not empty, not `.` or `..`, free of `/`, `\` and
/// NUL, and not starting with a drive prefix.
pub open spec fn is_plain_segment(g: Seq<char>) -> bool {
    &&& g.len() > 0
    &&& !is_drive_prefix(g)
    &&& g != seq!['.']
    &&& g != seq!['.', '.']
    &&& !g.contains('/')
    &&& !g.contains('\\')
    &&& !g.contains('\0')
}

proof fn lemma_split_has_no_separator(s: Seq<char>)
    ensures
        forall|i: int| 0 <= i < split_segments(s).len() ==> !(#[trigger] split_segments(s)[i]).contains('/'),
    decreases s.len(),
{
    if s.len() > 0 {
        lemma_split_has_no_separator(s.drop_last());
        lemma_split_nonempty(s.drop_last());
        let prev = split_segments(s.drop_last());
        if s.last() != '/' {
            let g = prev.last();
            assert forall|i: int| 0 <= i < split_segments(s).len() implies !(
            #[trigger] split_segments(s)[i]).contains('/') by {
                if i == prev.len() - 1 {
                    let h = g.push(s.last());
                    if h.contains('/') {
                        let k = choose|k: int| 0 <= k < h.len() && h[k] == '/';
                        assert(g[k] == '/');
                        assert(prev[prev.len() - 1].contains('/'));
                    }
                }
            }
        } else {
            assert forall|i: int| 0 <= i < split_segments(s).len() implies !(
            #[trigger] split_segments(s)[i]).contains('/') by {
                if i == prev.len() {
                    assert(split_segments(s)[i] =~= Seq::<char>::empty());
                }
            }
        }
    }
}

proof fn lemma_kept_characterized(segs: Seq<Seq<char>>)
    ensures
        kept_segments(segs) is None <==> exists|i: int|
            0 <= i < segs.len() && is_rejected_segment(#[trigger] segs[i]),
        kept_segments(segs) is Some ==> kept_segments(segs) == Some(
            segs.filter(|g: Seq<char>| !is_skipped_segment(g)),
        ),
        kept_segments(segs) matches Some(v) ==> forall|j: int|
            0 <= j < v.len() ==> exists|i: int| 0 <= i < segs.len() && #[trigger] v[j] == segs[i],
    decreases segs.len(),
{
    reveal_with_fuel(Seq::filter, 1);
    if segs.len() > 0 {
        let init = segs.drop_last();
        lemma_kept_characterized(init);
        if exists|i: int| 0 <= i < init.len() && is_rejected_segment(#[trigger] init[i]) {
            let i = choose|i: int| 0 <= i < init.len() && is_rejected_segment(#[trigger] init[i]);
            assert(segs[i] == init[i]);
        }
        if exists|i: int| 0 <= i < segs.len() && is_rejected_segment(#[trigger] segs[i]) {
            let i = choose|i: int| 0 <= i < segs.len() && is_rejected_segment(#[trigger] segs[i]);
            if i < init.len() {
                assert(init[i] == segs[i]);
            }
        }
        if let Some(v) = kept_segments(segs) {
            assert forall|j: int| 0 <= j < v.len() implies exists|i: int|
                0 <= i < segs.len() && #[trigger] v[j] == segs[i] by {
                let w = kept_segments(init).unwrap();
                if j < w.len() {
                    let i = choose|i: int| 0 <= i < init.len() && #[trigger] w[j] == init[i];
                    assert(v[j] == segs[i]);
                } else {
                    assert(v[j] == segs[segs.len() - 1]);
                }
            }
        }
    }
}

/// Safety: a path that resolves yields plain components only (none is empty,
/// `.` or `..`, none holds `/`, `\` or NUL, none starts with a drive prefix),
/// so pushing them onto the library root names a place inside it.
pub proof fn lemma_resolved_components_are_plain(path: Seq<u8>)
    ensures
        relative_segments(path) matches Some(v) ==> forall|j: int|
            0 <= j < v.len() ==> is_plain_segment(#[trigger] v[j]),
{
    let d = percent_decoded(path);
    if valid_utf8(d) {
        let segs = split_segments(decode_utf8(d));
        lemma_kept_characterized(segs);
        lemma_split_has_no_separator(decode_utf8(d));
        if let Some(v) = kept_segments(segs) {
            assert forall|j: int| 0 <= j < v.len() implies is_plain_segment(#[trigger] v[j]) by {
                let i = choose|i: int| 0 <= i < segs.len() && #[trigger] v[j] == segs[i];
                assert(!segs[i].contains('/'));
                if is_rejected_segment(segs[i]) {
                    assert(kept_segments(segs) is None);
                }
                segs.lemma_filter_pred(|g: Seq<char>| !is_skipped_segment(g), j);
            }
        }
    }
}

/// Refusal: a path is refused exactly when its percent-decoded bytes are not
/// UTF-8 or one of its `/`-separated pieces is `..`, holds a backslash or NUL,
/// or starts with a drive prefix; otherwise it resolves to its pieces in
/// order, less the empty and `.` ones.
pub proof fn lemma_refusal_exact(path: Seq<u8>)
    ensures
        relative_segments(path) is None <==> (!valid_utf8(percent_decoded(path)) || exists|i: int|
            0 <= i < split_segments(decode_utf8(percent_decoded(path))).len()
                && is_rejected_segment(
                #[trigger] split_segments(decode_utf8(percent_decoded(path)))[i],
            )),
        relative_segments(path) is Some ==> relative_segments(path) == Some(
            split_segments(decode_utf8(percent_decoded(path))).filter(
                |g: Seq<char>| !is_skipped_segment(g),
            ),
        ),
{
    lemma_kept_characterized(split_segments(decode_utf8(percent_decoded(path))));
}

/// The path spelling `segs`: each component after a `/`.
pub open spec fn joined_path(segs: Seq<Seq<char>>) -> Seq<char>
    decreases segs.len(),
{
    if segs.len() == 0 {
        Seq::empty()
    } else {
        seq!['/'] + segs[0] + joined_path(segs.drop_first())
    }
}

/// An upper-case hexadecimal digit for a value below 16.
pub open spec fn hex_digit(v: u8) -> u8 {
    if v < 10 {
        (0x30 + v) as u8
    } else {
        (0x41 + v - 10) as u8
    }
}

/// Every byte written as `%` and two hexadecimal digits.
pub open spec fn escaped_bytes(b: Seq<u8>) -> Seq<u8>
    decreases b.len(),
{
    if b.len() == 0 {
        Seq::empty()
    } else {
        seq![0x25u8, hex_digit(b[0] / 16), hex_digit(b[0] % 16)] + escaped_bytes(b.skip(1))
    }
}

/// The request path spelling `segs` with every byte of every component
/// percent-escaped.
pub open spec fn escaped_path(segs: Seq<Seq<char>>) -> Seq<u8>
    decreases segs.len(),
{
    if segs.len() == 0 {
        Seq::empty()
    } else {
        seq![0x2fu8] + escaped_bytes(encode_utf8(segs[0])) + escaped_path(segs.drop_first())
    }
}

proof fn lemma_encode_utf8_concat(a: Seq<char>, b: Seq<char>)
    ensures
        encode_utf8(a + b) == encode_utf8(a) + encode_utf8(b),
    decreases a.len(),
{
    if a.len() == 0 {
        assert(a + b =~= b);
        assert(encode_utf8(a) + encode_utf8(b) =~= encode_utf8(b));
    } else {
        assert((a + b).drop_first() =~= a.drop_first() + b);
        assert((a + b)[0] == a[0]);
        lemma_encode_utf8_concat(a.drop_first(), b);
        assert(encode_utf8(a + b) =~= encode_utf8(a) + encode_utf8(b));
    }
}

proof fn lemma_percent_decoded_byte(c: u8, y: Seq<u8>)
    requires
        c != 0x25,
    ensures
        percent_decoded(seq![c] + y) == seq![c] + percent_decoded(y),
{
    assert((seq![c] + y).skip(1) =~= y);
    assert((seq![c] + y)[0] == c);
}

proof fn lemma_percent_decoded_plain(b: Seq<u8>)
    requires
        forall|i: int| 0 <= i < b.len() ==> b[i] != 0x25,
    ensures
        percent_decoded(b) == b,
    decreases b.len(),
{
    if b.len() > 0 {
        lemma_percent_decoded_plain(b.skip(1));
        assert(b =~= seq![b[0]] + b.skip(1));
        lemma_percent_decoded_byte(b[0], b.skip(1));
    }
}

proof fn lemma_percent_decoded_escape(v: u8, y: Seq<u8>)
    ensures
        percent_decoded(seq![0x25u8, hex_digit(v / 16), hex_digit(v % 16)] + y) == seq![v]
            + percent_decoded(y),
{
    let e = seq![0x25u8, hex_digit(v / 16), hex_digit(v % 16)] + y;
    assert(e[0] == 0x25u8 && e[1] == hex_digit(v / 16) && e[2] == hex_digit(v % 16));
    assert(e.skip(3) =~= y);
    assert(is_hex_digit(e[1]) && hex_value(e[1]) == v / 16);
    assert(is_hex_digit(e[2]) && hex_value(e[2]) == v % 16);
    assert((v / 16) * 16 + v % 16 == v);
}

proof fn lemma_percent_decoded_escaped(b: Seq<u8>, y: Seq<u8>)
    ensures
        percent_decoded(escaped_bytes(b) + y) == b + percent_decoded(y),
    decreases b.len(),
{
    if b.len() == 0 {
        assert(escaped_bytes(b) + y =~= y);
        assert(b + percent_decoded(y) =~= percent_decoded(y));
    } else {
        let head = seq![0x25u8, hex_digit(b[0] / 16), hex_digit(b[0] % 16)];
        lemma_percent_decoded_escaped(b.skip(1), y);
        assert(escaped_bytes(b) + y =~= head + (escaped_bytes(b.skip(1)) + y));
        lemma_percent_decoded_escape(b[0], escaped_bytes(b.skip(1)) + y);
        assert(b =~= seq![b[0]] + b.skip(1));
        assert(seq![b[0]] + (b.skip(1) + percent_decoded(y)) =~= b + percent_decoded(y));
    }
}

proof fn lemma_slash_bytes()
    ensures
        encode_utf8(seq!['/']) == seq![0x2fu8],
{
    let s = seq!['/'];
    assert(s.drop_first() =~= Seq::<char>::empty());
    assert((s[0] as u32) == 0x2f);
    assert((0x2fu32 & 0x7f) == 0x2f) by (bit_vector);
    assert(has_width_1_encoding(0x2fu32));
    assert(encode_scalar(0x2fu32) =~= seq![0x2fu8]);
    assert(encode_utf8(s.drop_first()) =~= Seq::<u8>::empty());
    assert(encode_utf8(s) =~= seq![0x2fu8]);
}

proof fn lemma_escaped_path_decodes(segs: Seq<Seq<char>>)
    ensures
        percent_decoded(escaped_path(segs)) == encode_utf8(joined_path(segs)),
    decreases segs.len(),
{
    if segs.len() > 0 {
        let rest = segs.drop_first();
        lemma_escaped_path_decodes(rest);
        let b = encode_utf8(segs[0]);
        assert(escaped_path(segs) =~= seq![0x2fu8] + (escaped_bytes(b) + escaped_path(rest)));
        lemma_percent_decoded_byte(0x2fu8, escaped_bytes(b) + escaped_path(rest));
        lemma_percent_decoded_escaped(b, escaped_path(rest));
        lemma_slash_bytes();
        lemma_encode_utf8_concat(seq!['/'], segs[0]);
        lemma_encode_utf8_concat(seq!['/'] + segs[0], joined_path(rest));
        assert(seq![0x2fu8] + (b + encode_utf8(joined_path(rest))) =~= encode_utf8(seq!['/'])
            + encode_utf8(segs[0]) + encode_utf8(joined_path(rest)));
    }
}

proof fn lemma_scalar_bytes_not_percent(c: char)
    requires
        c != '%',
    ensures
        forall|i: int|
            0 <= i < encode_scalar(c as u32).len() ==> #[trigger] encode_scalar(c as u32)[i] != 0x25,
{
    let v = c as u32;
    vstd::utf8::char_is_scalar(c);
    assert(forall|x: u8| #[trigger] (0xC0u8 | x) != 0x25u8) by (bit_vector);
    assert(forall|x: u8| #[trigger] (0xE0u8 | x) != 0x25u8) by (bit_vector);
    assert(forall|x: u8| #[trigger] (0xF0u8 | x) != 0x25u8) by (bit_vector);
    assert(forall|x: u8| #[trigger] (0x80u8 | x) != 0x25u8) by (bit_vector);
    if has_width_1_encoding(v) {
        assert((v & 0x7F) == v) by (bit_vector)
            requires
                v <= 0x7f,
        ;
        assert(v != 0x25);
    }
}

proof fn lemma_encoded_not_percent(s: Seq<char>)
    requires
        !s.contains('%'),
    ensures
        forall|i: int| 0 <= i < encode_utf8(s).len() ==> #[trigger] encode_utf8(s)[i] != 0x25,
    decreases s.len(),
{
    if s.len() > 0 {
        assert(!s.drop_first().contains('%')) by {
            if s.drop_first().contains('%') {
                let k = choose|k: int| 0 <= k < s.drop_first().len() && s.drop_first()[k] == '%';
                assert(s[k + 1] == '%');
            }
        }
        assert(s[0] != '%') by {
            if s[0] == '%' {
                assert(s.contains('%'));
            }
        }
        lemma_encoded_not_percent(s.drop_first());
        lemma_scalar_bytes_not_percent(s[0]);
        let h = encode_scalar(s[0] as u32);
        let t = encode_utf8(s.drop_first());
        assert forall|i: int| 0 <= i < encode_utf8(s).len() implies #[trigger] encode_utf8(s)[i]
            != 0x25 by {
            if i < h.len() {
                assert(encode_utf8(s)[i] == h[i]);
            } else {
                assert(encode_utf8(s)[i] == t[i - h.len()]);
            }
        }
    }
}

proof fn lemma_joined_not_percent(segs: Seq<Seq<char>>)
    requires
        forall|i: int| 0 <= i < segs.len() ==> !(#[trigger] segs[i]).contains('%'),
    ensures
        !joined_path(segs).contains('%'),
    decreases segs.len(),
{
    if segs.len() > 0 {
        let rest = segs.drop_first();
        assert forall|i: int| 0 <= i < rest.len() implies !(#[trigger] rest[i]).contains('%') by {
            assert(rest[i] == segs[i + 1]);
        }
        lemma_joined_not_percent(rest);
        let j = joined_path(segs);
        let a = seq!['/'];
        let g = segs[0];
        let t = joined_path(rest);
        assert(!g.contains('%'));
        if j.contains('%') {
            let k = choose|k: int| 0 <= k < j.len() && j[k] == '%';
            if k == 0 {
                assert(j[0] == '/');
            } else if k < 1 + g.len() {
                assert(g[k - 1] == '%');
            } else {
                assert(t[k - 1 - g.len()] == '%');
            }
        }
    }
}

proof fn lemma_joined_path_last(segs: Seq<Seq<char>>)
    requires
        segs.len() > 0,
    ensures
        joined_path(segs) == joined_path(segs.drop_last()) + seq!['/'] + segs.last(),
    decreases segs.len(),
{
    if segs.len() == 1 {
        assert(segs.drop_first() =~= Seq::<Seq<char>>::empty());
        assert(segs.drop_last() =~= Seq::<Seq<char>>::empty());
        assert(joined_path(segs) =~= joined_path(segs.drop_last()) + seq!['/'] + segs.last());
    } else {
        let rest = segs.drop_first();
        lemma_joined_path_last(rest);
        assert(rest.drop_last() =~= segs.drop_last().drop_first());
        assert(rest.last() == segs.last());
        assert(segs.drop_last()[0] == segs[0]);
        assert(joined_path(segs) =~= joined_path(segs.drop_last()) + seq!['/'] + segs.last());
    }
}

proof fn lemma_split_extend(y: Seq<char>, g: Seq<char>)
    requires
        !g.contains('/'),
    ensures
        split_segments(y + g) == split_segments(y).update(
            split_segments(y).len() - 1,
            split_segments(y).last() + g,
        ),
    decreases g.len(),
{
    lemma_split_nonempty(y);
    if g.len() == 0 {
        assert(y + g =~= y);
        assert(split_segments(y).last() + g =~= split_segments(y).last());
        assert(split_segments(y).update(split_segments(y).len() - 1, split_segments(y).last())
            =~= split_segments(y));
    } else {
        let h = g.drop_last();
        assert(!h.contains('/')) by {
            if h.contains('/') {
                let k = choose|k: int| 0 <= k < h.len() && h[k] == '/';
                assert(g[k] == '/');
            }
        }
        assert(g.last() != '/') by {
            if g.last() == '/' {
                assert(g.contains('/'));
            }
        }
        lemma_split_extend(y, h);
        assert((y + g).drop_last() =~= y + h);
        assert((y + g).last() == g.last());
        let p = split_segments(y);
        let q = p.update(p.len() - 1, p.last() + h);
        assert(q.last() == p.last() + h);
        assert(g =~= h.push(g.last()));
        assert((p.last() + h).push(g.last()) =~= p.last() + g);
        assert(q.update(q.len() - 1, q.last().push(g.last())) =~= p.update(
            p.len() - 1,
            p.last() + g,
        ));
    }
}

proof fn lemma_split_joined(segs: Seq<Seq<char>>)
    requires
        forall|i: int| 0 <= i < segs.len() ==> !(#[trigger] segs[i]).contains('/'),
    ensures
        split_segments(joined_path(segs)) == seq![Seq::<char>::empty()] + segs,
    decreases segs.len(),
{
    if segs.len() == 0 {
        assert(seq![Seq::<char>::empty()] + segs =~= seq![Seq::<char>::empty()]);
    } else {
        let init = segs.drop_last();
        assert forall|i: int| 0 <= i < init.len() implies !(#[trigger] init[i]).contains('/') by {
            assert(init[i] == segs[i]);
        }
        lemma_split_joined(init);
        lemma_joined_path_last(segs);
        let x = joined_path(init) + seq!['/'];
        assert(x.drop_last() =~= joined_path(init));
        assert(x.last() == '/');
        assert(split_segments(x) == split_segments(joined_path(init)).push(Seq::<char>::empty()));
        assert(!segs.last().contains('/'));
        lemma_split_extend(x, segs.last());
        let p = split_segments(x);
        assert(p.last() + segs.last() =~= segs.last());
        assert(p.update(p.len() - 1, segs.last()) =~= seq![Seq::<char>::empty()] + segs);
    }
}

proof fn lemma_kept_plain(segs: Seq<Seq<char>>)
    requires
        forall|i: int| 0 <= i < segs.len() ==> is_plain_segment(#[trigger] segs[i]),
    ensures
        kept_segments(seq![Seq::<char>::empty()] + segs) == Some(segs),
    decreases segs.len(),
{
    let all = seq![Seq::<char>::empty()] + segs;
    if segs.len() == 0 {
        assert(all.drop_last() =~= Seq::<Seq<char>>::empty());
        assert(all.last() == Seq::<char>::empty());
        assert(segs =~= Seq::<Seq<char>>::empty());
        assert(kept_segments(all.drop_last()) == Some(Seq::<Seq<char>>::empty()));
        assert(is_skipped_segment(all.last()));
    } else {
        let init = segs.drop_last();
        assert forall|i: int| 0 <= i < init.len() implies is_plain_segment(#[trigger] init[i]) by {
            assert(init[i] == segs[i]);
        }
        lemma_kept_plain(init);
        assert(all.drop_last() =~= seq![Seq::<char>::empty()] + init);
        let g = segs.last();
        assert(is_plain_segment(g));
        assert(all.last() == g);
        assert(init.push(g) =~= segs);
        assert(kept_segments(all.drop_last()) == Some(init));
        assert(!is_skipped_segment(g));
        assert(!is_rejected_segment(g));
    }
}

/// Round trip: a path that spells plain components (none empty, `.` or `..`,
/// none holding `/`, `\`, NUL or `%`), each after a `/`, resolves to exactly
/// those components.
pub proof fn lemma_plain_path_resolves(segs: Seq<Seq<char>>)
    requires
        forall|i: int|
            0 <= i < segs.len() ==> is_plain_segment(#[trigger] segs[i]) && !segs[i].contains(
                '%',
            ),
    ensures
        relative_segments(encode_utf8(joined_path(segs))) == Some(segs),
{
    broadcast use vstd::utf8::group_utf8_lib;

    let j = joined_path(segs);
    lemma_joined_not_percent(segs);
    lemma_encoded_not_percent(j);
    lemma_percent_decoded_plain(encode_utf8(j));
    lemma_split_joined(segs);
    lemma_kept_plain(segs);
}

/// Round trip with escapes: the path that spells plain components with every
/// byte percent-escaped resolves to exactly those components, whatever
/// characters they hold.
pub proof fn lemma_escaped_path_resolves(segs: Seq<Seq<char>>)
    requires
        forall|i: int| 0 <= i < segs.len() ==> is_plain_segment(#[trigger] segs[i]),
    ensures
        relative_segments(escaped_path(segs)) == Some(segs),
{
    broadcast use vstd::utf8::group_utf8_lib;

    lemma_escaped_path_decodes(segs);
    lemma_split_joined(segs);
    lemma_kept_plain(segs);
}

proof fn lemma_percent_decoded_concat(a: Seq<u8>, t: Seq<u8>)
    requires
        t.len() > 0,
        !is_hex_digit(t[0]),
    ensures
        percent_decoded(a + t) == percent_decoded(a) + percent_decoded(t),
    decreases a.len(),
{
    let x = a + t;
    if a.len() == 0 {
        assert(x =~= t);
        assert(percent_decoded(a) + percent_decoded(t) =~= percent_decoded(t));
    } else if a[0] == 0x25u8 && a.len() >= 3 && is_hex_digit(a[1]) && is_hex_digit(a[2]) {
        assert(x[0] == a[0] && x[1] == a[1] && x[2] == a[2]);
        assert(x.skip(3) =~= a.skip(3) + t);
        lemma_percent_decoded_concat(a.skip(3), t);
        let v = seq![(hex_value(a[1]) * 16 + hex_value(a[2])) as u8];
        assert(v + (percent_decoded(a.skip(3)) + percent_decoded(t)) =~= v + percent_decoded(
            a.skip(3),
        ) + percent_decoded(t));
    } else {
        assert(x[0] == a[0]);
        if a[0] == 0x25u8 {
            if a.len() >= 3 {
                assert(x[1] == a[1] && x[2] == a[2]);
            } else if a.len() == 2 {
                assert(x[1] == a[1] && x[2] == t[0]);
            } else {
                assert(x[1] == t[0]);
            }
        }
        assert(x.skip(1) =~= a.skip(1) + t);
        lemma_percent_decoded_concat(a.skip(1), t);
        assert(seq![a[0]] + (percent_decoded(a.skip(1)) + percent_decoded(t)) =~= seq![a[0]]
            + percent_decoded(a.skip(1)) + percent_decoded(t));
    }
}

proof fn lemma_ascii_cons(c: u8, y: Seq<u8>)
    requires
        c < 0x80,
    ensures
        valid_utf8(seq![c] + y) == valid_utf8(y),
        valid_utf8(y) ==> decode_utf8(seq![c] + y) == seq![c as char] + decode_utf8(y),
{
    let x = seq![c] + y;
    assert(x[0] == c);
    assert((c & 0x7f) == c) by (bit_vector)
        requires
            c < 0x80,
    ;
    assert(valid_first_scalar(x));
    assert(pop_first_scalar(x) =~= y);
    assert(decode_first_scalar(x) == c as u32);
}


proof fn lemma_ascii_block(m: Seq<u8>, y: Seq<u8>)
    requires
        forall|i: int| 0 <= i < m.len() ==> #[trigger] m[i] < 0x80,
    ensures
        valid_utf8(m + y) == valid_utf8(y),
        valid_utf8(y) ==> decode_utf8(m + y) == m.map_values(|b: u8| b as char) + decode_utf8(y),
    decreases m.len(),
{
    if m.len() == 0 {
        assert(m + y =~= y);
        assert(m.map_values(|b: u8| b as char) + decode_utf8(y) =~= decode_utf8(y));
    } else {
        let rest = m.drop_first();
        assert forall|i: int| 0 <= i < rest.len() implies #[trigger] rest[i] < 0x80 by {
            assert(rest[i] == m[i + 1]);
        }
        lemma_ascii_block(rest, y);
        assert(m[0] < 0x80);
        lemma_ascii_cons(m[0], rest + y);
        assert(m + y =~= seq![m[0]] + (rest + y));
        assert(m.map_values(|b: u8| b as char) =~= seq![m[0] as char] + rest.map_values(
            |b: u8| b as char,
        ));
        assert(seq![m[0] as char] + (rest.map_values(|b: u8| b as char) + decode_utf8(y))
            =~= m.map_values(|b: u8| b as char) + decode_utf8(y));
    }
}

proof fn lemma_utf8_split_before_ascii(a: Seq<u8>, r: Seq<u8>)
    requires
        r.len() > 0,
        r[0] < 0x80,
    ensures
        valid_utf8(a + r) == (valid_utf8(a) && valid_utf8(r)),
        valid_utf8(a + r) ==> decode_utf8(a + r) == decode_utf8(a) + decode_utf8(r),
{
    broadcast use vstd::utf8::group_utf8_lib;

    let x = a + r;
    let n = a.len() as int;
    assert(x.subrange(0, n) =~= a);
    assert(x.subrange(n, x.len() as int) =~= r);
    assert(x[n] == r[0]);
    if valid_utf8(a) && valid_utf8(r) {
        assert(valid_utf8(x));
    }
    if valid_utf8(x) {
        vstd::utf8::is_char_boundary_iff_not_is_continuation_byte(x, n);
        assert(is_char_boundary(x, n));
        assert(valid_utf8(x.subrange(0, n)));
        assert(valid_utf8(x.subrange(n, x.len() as int)));
        assert(decode_utf8(x) =~= decode_utf8(x.subrange(0, n)) + decode_utf8(
            x.subrange(n, x.len() as int),
        ));
    }
}

proof fn lemma_split_concat(u: Seq<char>, v: Seq<char>)
    ensures
        split_segments(u + seq!['/'] + v) == split_segments(u) + split_segments(v),
    decreases v.len(),
{
    let x = u + seq!['/'] + v;
    lemma_split_nonempty(u);
    if v.len() == 0 {
        assert(x.drop_last() =~= u);
        assert(x.last() == '/');
        assert(split_segments(u).push(Seq::<char>::empty()) =~= split_segments(u) + seq![
            Seq::<char>::empty(),
        ]);
    } else {
        let w = v.drop_last();
        lemma_split_concat(u, w);
        lemma_split_nonempty(w);
        assert(x.drop_last() =~= u + seq!['/'] + w);
        assert(x.last() == v.last());
        let p = split_segments(u);
        let q = split_segments(w);
        if v.last() == '/' {
            assert((p + q).push(Seq::<char>::empty()) =~= p + q.push(Seq::<char>::empty()));
        } else {
            assert((p + q).update(p.len() + q.len() - 1, (p + q).last().push(v.last())) =~= p
                + q.update(q.len() - 1, q.last().push(v.last())));
        }
    }
}

proof fn lemma_kept_drops_skipped(p: Seq<Seq<char>>, g: Seq<char>, q: Seq<Seq<char>>)
    requires
        is_skipped_segment(g),
    ensures
        kept_segments(p + seq![g] + q) == kept_segments(p + q),
    decreases q.len(),
{
    if q.len() == 0 {
        assert((p + seq![g] + q).drop_last() =~= p);
        assert((p + seq![g] + q).last() == g);
        assert(p + q =~= p);
    } else {
        let w = q.drop_last();
        lemma_kept_drops_skipped(p, g, w);
        assert((p + seq![g] + q).drop_last() =~= p + seq![g] + w);
        assert((p + seq![g] + q).last() == q.last());
        assert((p + q).drop_last() =~= p + w);
        assert((p + q).last() == q.last());
    }
}


/// Empty and `.` pieces never change what a path resolves to: writing `//./`
/// in place of one `/` gives the same result, and so does a trailing `/`,
/// whatever bytes stand around them.
pub proof fn lemma_empty_and_dot_pieces_ignored(a: Seq<u8>, b: Seq<u8>)
    ensures
        relative_segments(a + seq![0x2fu8] + b) == relative_segments(
            a + seq![0x2fu8, 0x2fu8, 0x2eu8, 0x2fu8] + b,
        ),
        relative_segments(a + seq![0x2fu8]) == relative_segments(a),
{
    let m1 = seq![0x2fu8];
    let m2 = seq![0x2fu8, 0x2fu8, 0x2eu8, 0x2fu8];
    let r1 = m1 + b;
    let r2 = m2 + b;
    let pa = percent_decoded(a);
    let pb = percent_decoded(b);
    assert(a + m1 + b =~= a + r1);
    assert(a + m2 + b =~= a + r2);
    assert(r1[0] == 0x2fu8 && r2[0] == 0x2fu8);
    lemma_percent_decoded_concat(a, r1);
    lemma_percent_decoded_concat(a, r2);
    lemma_percent_decoded_concat(a, m1);
    assert(r1 =~= seq![0x2fu8] + b);
    lemma_percent_decoded_byte(0x2fu8, b);
    assert(r2 =~= seq![0x2fu8] + (seq![0x2fu8] + (seq![0x2eu8] + (seq![0x2fu8] + b))));
    lemma_percent_decoded_byte(0x2fu8, b);
    lemma_percent_decoded_byte(0x2eu8, seq![0x2fu8] + b);
    lemma_percent_decoded_byte(0x2fu8, seq![0x2eu8] + (seq![0x2fu8] + b));
    lemma_percent_decoded_byte(0x2fu8, seq![0x2fu8] + (seq![0x2eu8] + (seq![0x2fu8] + b)));
    let d1 = m1 + pb;
    let d2 = m2 + pb;
    assert(percent_decoded(r1) =~= d1);
    assert(percent_decoded(r2) =~= d2);
    assert(m1 =~= seq![0x2fu8] + Seq::<u8>::empty());
    lemma_percent_decoded_byte(0x2fu8, Seq::<u8>::empty());
    assert(percent_decoded(m1) =~= m1);
    // UTF-8: the ASCII bytes in the middle split the decoding.
    assert forall|i: int| 0 <= i < m1.len() implies #[trigger] m1[i] < 0x80 by {}
    assert forall|i: int| 0 <= i < m2.len() implies #[trigger] m2[i] < 0x80 by {}
    lemma_ascii_block(m1, pb);
    lemma_ascii_block(m2, pb);
    lemma_ascii_block(m1, Seq::<u8>::empty());
    assert(m1 + Seq::<u8>::empty() =~= m1);
    assert(d1[0] == 0x2fu8 && d2[0] == 0x2fu8 && m1[0] == 0x2fu8);
    lemma_utf8_split_before_ascii(pa, d1);
    lemma_utf8_split_before_ascii(pa, d2);
    lemma_utf8_split_before_ascii(pa, m1);
    assert(valid_utf8(Seq::<u8>::empty()));
    if valid_utf8(pa) && valid_utf8(pb) {
        let ca = decode_utf8(pa);
        let cb = decode_utf8(pb);
        let sa = split_segments(ca);
        let sb = split_segments(cb);
        let c1 = m1.map_values(|x: u8| x as char);
        let c2 = m2.map_values(|x: u8| x as char);
        assert(c1 =~= seq!['/']);
        assert(c2 =~= seq!['/', '/', '.', '/']);
        assert(decode_utf8(Seq::<u8>::empty()) =~= Seq::<char>::empty());
        // One `/` against `//./`.
        assert(ca + (c1 + cb) =~= ca + seq!['/'] + cb);
        lemma_split_concat(ca, cb);
        let w = seq!['.'] + seq!['/'] + cb;
        assert(ca + (c2 + cb) =~= ca + seq!['/'] + (Seq::<char>::empty() + seq!['/'] + w));
        lemma_split_concat(Seq::<char>::empty(), w);
        lemma_split_concat(seq!['.'], cb);
        assert(split_segments(Seq::<char>::empty()) =~= seq![Seq::<char>::empty()]);
        assert(seq!['.'].drop_last() =~= Seq::<char>::empty());
        assert(split_segments(seq!['.']) =~= seq![seq!['.']]);
        lemma_split_concat(ca, Seq::<char>::empty() + seq!['/'] + w);
        let long = sa + (seq![Seq::<char>::empty()] + (seq![seq!['.']] + sb));
        assert(split_segments(ca + (c2 + cb)) =~= long);
        assert(long =~= sa + seq![Seq::<char>::empty()] + (seq![seq!['.']] + sb));
        lemma_kept_drops_skipped(sa, Seq::<char>::empty(), seq![seq!['.']] + sb);
        assert(sa + (seq![seq!['.']] + sb) =~= sa + seq![seq!['.']] + sb);
        lemma_kept_drops_skipped(sa, seq!['.'], sb);
    }
    if valid_utf8(pa) {
        // A trailing `/`.
        let ca = decode_utf8(pa);
        let sa = split_segments(ca);
        assert(m1.map_values(|x: u8| x as char) =~= seq!['/']);
        assert(decode_utf8(Seq::<u8>::empty()) =~= Seq::<char>::empty());
        assert(decode_utf8(pa + m1) =~= ca + seq!['/'] + Seq::<char>::empty());
        lemma_split_concat(ca, Seq::<char>::empty());
        assert(sa + seq![Seq::<char>::empty()] =~= sa + seq![Seq::<char>::empty()] + Seq::<
            Seq<char>,
        >::empty());
        lemma_kept_drops_skipped(sa, Seq::<char>::empty(), Seq::<Seq<char>>::empty());
        assert(sa + Seq::<Seq<char>>::empty() =~= sa);
    }
}


/// Calls `percent_encoding::percent_decode_str` on `path` and then
/// `PercentDecode::decode_utf8` on what it returns. Claimed: the result is
/// present exactly when the percent-decoded bytes are valid UTF-8, and then
/// its characters are those bytes decoded.
#[verifier::external_body]
fn percent_decode_utf8(path: &str) -> (r: Option<String>)
    ensures
        r is Some <==> valid_utf8(percent_decoded(path.spec_bytes())),
        r matches Some(s) ==> s@ == decode_utf8(percent_decoded(path.spec_bytes())),
{
    percent_encoding::percent_decode_str(path).decode_utf8().ok().map(|s| s.into_owned())
}

proof fn lemma_split_nonempty(s: Seq<char>)
    ensures
        split_segments(s).len() >= 1,
    decreases s.len(),
{
    if s.len() > 0 {
        lemma_split_nonempty(s.drop_last());
    }
}

/// Appends the segment `s[start..end]` to `out` under the filter, or marks the
/// path refused.
fn finish_segment(
    s: &str,
    start: usize,
    end: usize,
    has_bad: bool,
    all_dots: bool,
    out: &mut Vec<String>,
    rejected: &mut bool,
)
    requires
        start <= end <= s@.len(),
        has_bad <==> (s@.subrange(start as int, end as int).contains('\\') || s@.subrange(
            start as int,
            end as int,
        ).contains('\0')),
        all_dots <==> (forall|k: int| start <= k < end ==> s@[k] == '.'),
    ensures
        ({
            let acc = if *old(rejected) {
                None::<Seq<Seq<char>>>
            } else {
                Some(strings_view(old(out)@))
            };
            let next = keep_step(acc, s@.subrange(start as int, end as int));
            &&& *final(rejected) <==> next is None
            &&& !*final(rejected) ==> next == Some(strings_view(final(out)@))
        }),
{
    let ghost g = s@.subrange(start as int, end as int);
    let len = end - start;
    if *rejected {
        return;
    }
    if len == 0 || (len == 1 && all_dots) {
        assert(is_skipped_segment(g)) by {
            if len == 1 {
                assert(g =~= seq!['.']);
            }
        }
        return;
    }
    assert(!is_skipped_segment(g)) by {
        if g == seq!['.'] {
            assert(g.len() == 1);
            assert(g[0] == '.');
        }
    }
    let drive = len >= 2 && {
        let c0 = s.get_char(start);
        let c1 = s.get_char(start + 1);
        (('A' <= c0 && c0 <= 'Z') || ('a' <= c0 && c0 <= 'z')) && c1 == ':'
    };
    assert(drive == is_drive_prefix(g)) by {
        if len >= 2 {
            assert(g[0] == s@[start as int] && g[1] == s@[start + 1]);
        }
    }
    if (len == 2 && all_dots) || has_bad || drive {
        assert(is_rejected_segment(g)) by {
            if len == 2 && all_dots {
                assert(g =~= seq!['.', '.']);
            }
        }
        *rejected = true;
        return;
    }
    assert(!is_rejected_segment(g)) by {
        if g == seq!['.', '.'] {
            assert(g[0] == '.' && g[1] == '.');
            assert(s@[start as int] == '.' && s@[start + 1] == '.');
        }
    }
    let piece = s.substring_char(start, end).to_owned();
    out.push(piece);
    assert(strings_view(out@) =~= strings_view(old(out)@).push(g));
}

/// Splits `s` on `/` and filters the segments.
fn split_and_filter(s: &str) -> (r: Option<Vec<String>>)
    ensures
        r is Some <==> kept_segments(split_segments(s@)) is Some,
        r matches Some(v) ==> kept_segments(split_segments(s@)) == Some(strings_view(v@)),
{
    let n = s.unicode_len();
    let mut out: Vec<String> = Vec::new();
    let mut rejected = false;
    let mut start: usize = 0;
    let mut i: usize = 0;
    let mut has_bad = false;
    let mut all_dots = true;
    proof {
        assert(s@.take(0) =~= Seq::<char>::empty());
        assert(strings_view(out@) =~= Seq::<Seq<char>>::empty());
        assert(split_segments(s@.take(0)).drop_last() =~= Seq::<Seq<char>>::empty());
        assert(s@.subrange(0, 0) =~= Seq::<char>::empty());
    }
    for c in it: s.chars()
        invariant
            n == s@.len(),
            i == it.index(),
            it.seq() == s@,
            start <= i <= n,
            split_segments(s@.take(i as int)).last() == s@.subrange(start as int, i as int),
            rejected <==> kept_segments(split_segments(s@.take(i as int)).drop_last()) is None,
            !rejected ==> kept_segments(split_segments(s@.take(i as int)).drop_last()) == Some(
                strings_view(out@),
            ),
            has_bad <==> (s@.subrange(start as int, i as int).contains('\\') || s@.subrange(
                start as int,
                i as int,
            ).contains('\0')),
            all_dots <==> (forall|k: int| start <= k < i ==> s@[k] == '.'),
    {
        let ghost prev = split_segments(s@.take(i as int));
        proof {
            lemma_split_nonempty(s@.take(i as int));
            assert(s@.take(i + 1).drop_last() =~= s@.take(i as int));
            assert(s@.take(i + 1).last() == c);
        }
        if c == '/' {
            finish_segment(s, start, i, has_bad, all_dots, &mut out, &mut rejected);
            proof {
                assert(split_segments(s@.take(i + 1)) == prev.push(Seq::<char>::empty()));
                assert(prev.push(Seq::<char>::empty()).drop_last() =~= prev);
                assert(prev =~= prev.drop_last().push(prev.last()));
                assert(s@.subrange(i + 1, i + 1) =~= Seq::<char>::empty());
            }
            start = i + 1;
            has_bad = false;
            all_dots = true;
        } else {
            proof {
                let g = s@.subrange(start as int, i as int);
                let g2 = s@.subrange(start as int, i + 1);
                assert(g2 =~= g.push(c));
                let next = prev.update(prev.len() - 1, g.push(c));
                assert(split_segments(s@.take(i + 1)) == next);
                assert(next.drop_last() =~= prev.drop_last());
                assert(next.last() == g2);
                assert(g2.contains('\\') <==> (g.contains('\\') || c == '\\')) by {
                    if c == '\\' {
                        assert(g2[g2.len() - 1] == '\\');
                    }
                    if g.contains('\\') {
                        let k = choose|k: int| 0 <= k < g.len() && g[k] == '\\';
                        assert(g2[k] == '\\');
                    }
                    if g2.contains('\\') {
                        let k = choose|k: int| 0 <= k < g2.len() && g2[k] == '\\';
                        if k < g.len() {
                            assert(g[k] == '\\');
                        }
                    }
                }
                assert(g2.contains('\0') <==> (g.contains('\0') || c == '\0')) by {
                    if c == '\0' {
                        assert(g2[g2.len() - 1] == '\0');
                    }
                    if g.contains('\0') {
                        let k = choose|k: int| 0 <= k < g.len() && g[k] == '\0';
                        assert(g2[k] == '\0');
                    }
                    if g2.contains('\0') {
                        let k = choose|k: int| 0 <= k < g2.len() && g2[k] == '\0';
                        if k < g.len() {
                            assert(g[k] == '\0');
                        }
                    }
                }
            }
            if c == '\\' || c == '\0' {
                has_bad = true;
            }
            if c != '.' {
                all_dots = false;
            }
        }
        i = i + 1;
    }
    proof {
        assert(s@.take(n as int) =~= s@);
        let segs = split_segments(s@);
        lemma_split_nonempty(s@);
        assert(segs =~= segs.drop_last().push(segs.last()));
    }
    finish_segment(s, start, i, has_bad, all_dots, &mut out, &mut rejected);
    if rejected {
        None
    } else {
        Some(out)
    }
}

/// Resolves a request path to the components below the library root, or
/// `None` when the path is refused (a `..` segment, a backslash or NUL, a
/// segment starting with a drive prefix, or percent-decoded bytes that are
/// not UTF-8).
pub fn safe_relative(path: &str) -> (r: Option<Vec<String>>)
    ensures
        r is Some <==> relative_segments(path.spec_bytes()) is Some,
        r matches Some(v) ==> relative_segments(path.spec_bytes()) == Some(strings_view(v@)),
{
    match percent_decode_utf8(path) {
        None => None,
        Some(decoded) => split_and_filter(decoded.as_str()),
    }
}

} // verus!
