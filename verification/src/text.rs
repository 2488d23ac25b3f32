//! Byte-level text utilities shared by the request parser and the response
//! serializer: splitting a buffer into lines, trimming carriage returns,
//! ASCII lowercasing, and the bridge from raw bytes to `String`.

use vstd::prelude::*;

verus! {

use vstd::utf8::{valid_utf8, decode_utf8, valid_first_scalar, pop_first_scalar,
    is_leading_byte_width_2, is_leading_byte_width_3,
    length_of_first_scalar, decode_first_scalar, decode_first_codepoint,
    length_of_first_codepoint, is_leading_byte_width_1, is_continuation_byte,
    codepoint_width_1, not_overlong_encoding};
use vstd::string::StringSliceAdditionalSpecFns;
use vstd::string::StrSliceExecFns;

/// Line feed, the byte request buffers are split on.
pub const LF: u8 = 10;

/// Carriage return, stripped from the end of each line.
pub const CR: u8 = 13;

/// Space, the separator inside the request line.
pub const SP: u8 = 32;

/// The views of a sequence of byte vectors.
pub open spec fn views_of(s: Seq<Vec<u8>>) -> Seq<Seq<u8>> {
    s.map_values(|v: Vec<u8>| v@)
}

/// `s` split at every occurrence of `sep`: separators are removed and empty
/// pieces are kept, so the result always holds at least one piece and joining
/// the pieces with `sep` gives back `s`.
pub open spec fn split_on(s: Seq<u8>, sep: u8) -> Seq<Seq<u8>>
    decreases s.len(),
{
    if s.len() == 0 {
        seq![Seq::<u8>::empty()]
    } else if s[0] == sep {
        seq![Seq::<u8>::empty()] + split_on(s.drop_first(), sep)
    } else {
        let rest = split_on(s.drop_first(), sep);
        seq![seq![s[0]] + rest[0]] + rest.drop_first()
    }
}

pub proof fn lemma_split_on_nonempty(s: Seq<u8>, sep: u8)
    ensures
        split_on(s, sep).len() >= 1,
    decreases s.len(),
{
    if s.len() != 0 {
        lemma_split_on_nonempty(s.drop_first(), sep);
    }
}

/// Appending one byte extends the last piece, or opens a new empty piece when
/// the byte is the separator.
pub proof fn lemma_split_on_push(s: Seq<u8>, sep: u8, b: u8)
    ensures
        split_on(s, sep).len() >= 1,
        b == sep ==> split_on(s.push(b), sep) == split_on(s, sep).push(Seq::<u8>::empty()),
        b != sep ==> split_on(s.push(b), sep) == split_on(s, sep).update(
            split_on(s, sep).len() - 1,
            split_on(s, sep).last().push(b),
        ),
    decreases s.len(),
{
    lemma_split_on_nonempty(s, sep);
    if s.len() == 0 {
        assert(s =~= Seq::<u8>::empty());
        assert(split_on(s, sep) == seq![Seq::<u8>::empty()]);
        assert(s.push(b).drop_first() =~= s);
        if b == sep {
            assert(split_on(s.push(b), sep) =~= split_on(s, sep).push(Seq::<u8>::empty()));
        } else {
            assert(split_on(s.push(b), sep) =~= split_on(s, sep).update(
                0,
                split_on(s, sep).last().push(b),
            ));
        }
    } else {
        lemma_split_on_push(s.drop_first(), sep, b);
        lemma_split_on_nonempty(s.drop_first(), sep);
        assert(s.push(b).drop_first() =~= s.drop_first().push(b));
        let rest = split_on(s.drop_first(), sep);
        let restb = split_on(s.drop_first().push(b), sep);
        if b == sep {
            assert(split_on(s.push(b), sep) =~= split_on(s, sep).push(Seq::<u8>::empty()));
        } else {
            if s[0] != sep && rest.len() == 1 {
                assert(restb == rest.update(0, rest.last().push(b)));
                assert(restb[0] == rest[0].push(b));
            }
            assert(split_on(s.push(b), sep) =~= split_on(s, sep).update(
                split_on(s, sep).len() - 1,
                split_on(s, sep).last().push(b),
            ));
        }
    }
}


/// A sequence free of the separator is one whole piece.
pub proof fn lemma_split_on_no_sep(s: Seq<u8>, sep: u8)
    requires
        forall|i: int| 0 <= i < s.len() ==> s[i] != sep,
    ensures
        split_on(s, sep) == seq![s],
    decreases s.len(),
{
    if s.len() == 0 {
        assert(split_on(s, sep) =~~= seq![s]);
    } else {
        lemma_split_on_no_sep(s.drop_first(), sep);
        assert(split_on(s, sep) =~~= seq![s]);
    }
}

/// Splitting around one separator: a separator-free prefix becomes the first
/// piece and the rest splits on its own.
pub proof fn lemma_split_on_append(a: Seq<u8>, b: Seq<u8>, sep: u8)
    requires
        forall|i: int| 0 <= i < a.len() ==> a[i] != sep,
    ensures
        split_on(a + seq![sep] + b, sep) == seq![a] + split_on(b, sep),
    decreases a.len(),
{
    let s = a + seq![sep] + b;
    lemma_split_on_nonempty(b, sep);
    if a.len() == 0 {
        assert(s[0] == sep);
        assert(s.drop_first() =~= b);
        assert(split_on(s, sep) =~~= seq![a] + split_on(b, sep));
    } else {
        assert(s[0] == a[0]);
        assert(s.drop_first() =~= a.drop_first() + seq![sep] + b);
        lemma_split_on_append(a.drop_first(), b, sep);
        let rest = split_on(s.drop_first(), sep);
        assert(rest == seq![a.drop_first()] + split_on(b, sep));
        assert(rest[0] == a.drop_first());
        assert(rest.drop_first() =~= split_on(b, sep));
        assert(seq![s[0]] + rest[0] =~= a);
        assert(split_on(s, sep) =~~= seq![a] + split_on(b, sep));
    }
}


/// The index of the first occurrence of `b` in `s`, if any.
pub open spec fn find_byte(s: Seq<u8>, b: u8) -> Option<int>
    decreases s.len(),
{
    if s.len() == 0 {
        None
    } else if s[0] == b {
        Some(0)
    } else {
        match find_byte(s.drop_first(), b) {
            None => None,
            Some(i) => Some(i + 1),
        }
    }
}

/// The first occurrence is a real occurrence with none before it; `None`
/// means there is no occurrence at all.
pub proof fn lemma_find_byte(s: Seq<u8>, b: u8)
    ensures
        match find_byte(s, b) {
            Some(i) => 0 <= i < s.len() && s[i] == b && forall|j: int| 0 <= j < i ==> s[j] != b,
            None => forall|j: int| 0 <= j < s.len() ==> s[j] != b,
        },
    decreases s.len(),
{
    if s.len() == 0 {
    } else if s[0] == b {
    } else {
        let d = s.drop_first();
        lemma_find_byte(d, b);
        assert(forall|j: int| 0 <= j < d.len() ==> #[trigger] d[j] == s[j + 1]);
        match find_byte(d, b) {
            Some(i) => {
                assert(s[i + 1] == d[i]);
                assert forall|j: int| 0 <= j < i + 1 implies s[j] != b by {
                    if j > 0 {
                        assert(d[j - 1] == s[j]);
                    }
                }
            },
            None => {
                assert forall|j: int| 0 <= j < s.len() implies s[j] != b by {
                    if j > 0 {
                        assert(d[j - 1] == s[j]);
                    }
                }
            },
        }
    }
}

/// Splicing one ASCII byte between two sequences: the whole is valid UTF-8
/// exactly when both sides are, because an ASCII byte is a complete one-byte
/// encoding of its own.
pub proof fn lemma_valid_utf8_concat_ascii(a: Seq<u8>, c: u8, b: Seq<u8>)
    requires
        c < 0x80,
    ensures
        valid_utf8(a + seq![c] + b) <==> (valid_utf8(a) && valid_utf8(b)),
{
    let s = a + seq![c] + b;
    let cb = seq![c] + b;
    assert(cb.len() >= 1 && cb[0] == c);
    assert(vstd::utf8::is_leading_byte_width_1(c));
    if valid_utf8(a) && valid_utf8(b) {
        assert(valid_utf8(cb)) by {
            assert(valid_first_scalar(cb));
            assert(length_of_first_scalar(cb) == 1);
            assert(pop_first_scalar(cb) =~= b);
        }
        vstd::utf8::valid_utf8_concat(a, cb);
        assert(a + cb =~= s);
    }
    if valid_utf8(s) {
        assert(s[a.len() as int] == c);
        if a.len() < s.len() {
            vstd::utf8::is_char_boundary_iff_not_is_continuation_byte(s, a.len() as int);
            assert(!is_continuation_byte(c));
            vstd::utf8::valid_utf8_split(s, a.len() as int);
            assert(s.subrange(0, a.len() as int) =~= a);
            assert(s.subrange(a.len() as int, s.len() as int) =~= cb);
            assert(valid_utf8(a) && valid_utf8(cb));
            assert(valid_first_scalar(cb));
            assert(length_of_first_scalar(cb) == 1);
            assert(pop_first_scalar(cb) =~= b);
            assert(valid_utf8(b));
        }
    }
}

/// Splitting at an ASCII separator neither hides nor creates a UTF-8 fault:
/// the whole sequence is valid exactly when every piece is.
pub proof fn lemma_split_on_valid_utf8(s: Seq<u8>, sep: u8)
    requires
        sep < 0x80,
    ensures
        valid_utf8(s) <==> (forall|i: int|
            0 <= i < split_on(s, sep).len() ==> valid_utf8(#[trigger] split_on(s, sep)[i])),
    decreases s.len(),
{
    lemma_find_byte(s, sep);
    match find_byte(s, sep) {
        None => {
            lemma_split_on_no_sep(s, sep);
            assert(split_on(s, sep)[0] == s);
        },
        Some(i) => {
            let x = s.take(i);
            let y = s.skip(i + 1);
            assert(s =~= x + seq![sep] + y);
            assert(forall|j: int| 0 <= j < x.len() ==> x[j] != sep);
            lemma_split_on_append(x, y, sep);
            lemma_valid_utf8_concat_ascii(x, sep, y);
            lemma_split_on_valid_utf8(y, sep);
            let px = split_on(s, sep);
            let py = split_on(y, sep);
            assert(px == seq![x] + py);
            assert(px[0] == x);
            assert(forall|j: int| 0 <= j < py.len() ==> px[j + 1] == py[j]);
            if valid_utf8(s) {
                assert forall|j: int| 0 <= j < px.len() implies valid_utf8(
                    #[trigger] px[j]) by {
                    if j > 0 {
                        assert(px[j] == py[j - 1]);
                    }
                }
            }
            if forall|i_: int| 0 <= i_ < px.len() ==> valid_utf8(#[trigger] px[i_]) {
                assert(valid_utf8(x));
                assert forall|j: int| 0 <= j < py.len() implies valid_utf8(
                    #[trigger] py[j]) by {
                    assert(py[j] == px[j + 1]);
                }
                assert(valid_utf8(y));
            }
        },
    }
}

/// `l` with one trailing carriage return removed, if present.
pub open spec fn strip_cr(l: Seq<u8>) -> Seq<u8> {
    if l.len() > 0 && l.last() == CR {
        l.drop_last()
    } else {
        l
    }
}

/// The pieces, each with a trailing carriage return removed, with the empty
/// results dropped.
pub open spec fn tidy_lines(pieces: Seq<Seq<u8>>) -> Seq<Seq<u8>>
    decreases pieces.len(),
{
    if pieces.len() == 0 {
        Seq::empty()
    } else {
        let h = strip_cr(pieces.first());
        if h.len() == 0 {
            tidy_lines(pieces.drop_first())
        } else {
            seq![h] + tidy_lines(pieces.drop_first())
        }
    }
}

pub proof fn lemma_tidy_lines_push(pieces: Seq<Seq<u8>>, p: Seq<u8>)
    ensures
        strip_cr(p).len() == 0 ==> tidy_lines(pieces.push(p)) == tidy_lines(pieces),
        strip_cr(p).len() != 0 ==> tidy_lines(pieces.push(p)) == tidy_lines(pieces).push(
            strip_cr(p),
        ),
    decreases pieces.len(),
{
    if pieces.len() == 0 {
        assert(pieces =~= Seq::<Seq<u8>>::empty());
        assert(tidy_lines(pieces) == Seq::<Seq<u8>>::empty());
        assert(pieces.push(p).drop_first() =~= pieces);
        if strip_cr(p).len() != 0 {
            assert(tidy_lines(pieces.push(p)) =~= tidy_lines(pieces).push(strip_cr(p)));
        }
    } else {
        lemma_tidy_lines_push(pieces.drop_first(), p);
        assert(pieces.push(p).drop_first() =~= pieces.drop_first().push(p));
        assert(pieces.push(p).first() == pieces.first());
        if strip_cr(p).len() != 0 && strip_cr(pieces.first()).len() != 0 {
            assert(tidy_lines(pieces.push(p)) =~= tidy_lines(pieces).push(strip_cr(p)));
        }
    }
}

/// The cleaned lines of a raw header block: split on line feeds, strip one
/// trailing carriage return from each line, drop the lines left empty.
pub open spec fn clean_lines(bs: Seq<u8>) -> Seq<Seq<u8>> {
    tidy_lines(split_on(bs, LF))
}

/// The cleaned lines of a raw buffer, computed in one pass.
pub fn split_clean_lines(bs: &Vec<u8>) -> (r: Vec<Vec<u8>>)
    ensures
        views_of(r@) == clean_lines(bs@),
{
    let mut out: Vec<Vec<u8>> = Vec::new();
    let mut cur: Vec<u8> = Vec::new();
    let mut i: usize = 0;
    proof {
        assert(bs@.take(0) =~= Seq::<u8>::empty());
        assert(views_of(out@) =~= Seq::<Seq<u8>>::empty());
    }
    while i < bs.len()
        invariant
            i <= bs@.len(),
            split_on(bs@.take(i as int), LF).last() == cur@,
            tidy_lines(split_on(bs@.take(i as int), LF).drop_last()) == views_of(out@),
            split_on(bs@.take(i as int), LF).len() >= 1,
        decreases bs@.len() - i,
    {
        let ghost pieces = split_on(bs@.take(i as int), LF);
        let b = bs[i];
        proof {
            assert(bs@.take(i + 1) =~= bs@.take(i as int).push(b));
            lemma_split_on_push(bs@.take(i as int), LF, b);
        }
        if b == LF {
            let ghost old_out = out@;
            let mut done = cur;
            if done.len() > 0 && done[done.len() - 1] == CR {
                let _ = done.pop();
                proof {
                    assert(done@ =~= strip_cr(pieces.last()));
                }
            }
            if done.len() > 0 {
                out.push(done);
            }
            cur = Vec::new();
            proof {
                let piecesb = split_on(bs@.take(i + 1), LF);
                assert(piecesb.drop_last() =~= pieces.drop_last().push(pieces.last()));
                lemma_tidy_lines_push(pieces.drop_last(), pieces.last());
                if strip_cr(pieces.last()).len() == 0 {
                    assert(views_of(out@) =~= tidy_lines(piecesb.drop_last()));
                } else {
                    assert(views_of(out@) =~= views_of(old_out).push(strip_cr(pieces.last())));
                    assert(views_of(out@) =~= tidy_lines(piecesb.drop_last()));
                }
            }
        } else {
            cur.push(b);
            proof {
                let piecesb = split_on(bs@.take(i + 1), LF);
                assert(piecesb.drop_last() =~= pieces.drop_last());
            }
        }
        i = i + 1;
    }
    let ghost pieces = split_on(bs@.take(bs@.len() as int), LF);
    proof {
        assert(bs@.take(bs@.len() as int) =~= bs@);
        assert(pieces.drop_last().push(pieces.last()) =~= pieces);
        lemma_tidy_lines_push(pieces.drop_last(), pieces.last());
    }
    let ghost old_out = out@;
    if cur.len() > 0 && cur[cur.len() - 1] == CR {
        let _ = cur.pop();
        proof {
            assert(cur@ =~= strip_cr(pieces.last()));
        }
    }
    if cur.len() > 0 {
        out.push(cur);
        proof {
            assert(views_of(out@) =~= views_of(old_out).push(strip_cr(pieces.last())));
        }
    }
    out
}

/// `b` with an upper-case ASCII letter mapped to lower case.
pub open spec fn lower_byte(b: u8) -> u8 {
    if 65 <= b <= 90 {
        (b + 32) as u8
    } else {
        b
    }
}

/// The byte sequence with every upper-case ASCII letter lowered.
pub open spec fn lower_bytes(s: Seq<u8>) -> Seq<u8> {
    s.map_values(|b: u8| lower_byte(b))
}

/// `c` with an upper-case ASCII letter mapped to lower case; every other
/// character is unchanged.
pub open spec fn lower_char(c: char) -> char {
    if 'A' <= c <= 'Z' {
        (((c as u8) + 32) as u8) as char
    } else {
        c
    }
}

/// The character sequence with every upper-case ASCII letter lowered.
pub open spec fn lower_chars(s: Seq<char>) -> Seq<char> {
    s.map_values(|c: char| lower_char(c))
}

/// The byte sequence with every upper-case ASCII letter lowered, in place.
pub fn lower_bytes_vec(s: &mut Vec<u8>)
    ensures
        final(s)@ == lower_bytes(old(s)@),
{
    let mut i: usize = 0;
    while i < s.len()
        invariant
            i <= s@.len(),
            s@.len() == old(s)@.len(),
            forall|j: int| 0 <= j < i ==> s@[j] == lower_byte(old(s)@[j]),
            forall|j: int| i <= j < s@.len() ==> s@[j] == old(s)@[j],
        decreases s@.len() - i,
    {
        let b = s[i];
        if 65 <= b && b <= 90 {
            s[i] = b + 32;
        }
        i = i + 1;
    }
    proof {
        assert(s@ =~= lower_bytes(old(s)@));
    }
}

/// Lowercasing the bytes of a valid UTF-8 sequence only touches one-byte
/// (ASCII) encodings, so validity is preserved and the decoded characters are
/// the lowercased decoded characters of the original.
pub proof fn lemma_lower_bytes_utf8(s: Seq<u8>)
    requires
        valid_utf8(s),
    ensures
        valid_utf8(lower_bytes(s)),
        decode_utf8(lower_bytes(s)) == lower_chars(decode_utf8(s)),
    decreases s.len(),
{
    let t = lower_bytes(s);
    if s.len() == 0 {
        assert(t =~= Seq::<u8>::empty());
        assert(decode_utf8(t) =~= lower_chars(decode_utf8(s)));
    } else {
        let n = length_of_first_scalar(s);
        let rest = pop_first_scalar(s);
        assert(valid_first_scalar(s));
        assert(valid_utf8(rest));
        lemma_lower_bytes_utf8(rest);
        assert(pop_first_scalar(t) =~= lower_bytes(rest)) by {
            assert(1 <= n <= s.len());
            assert(forall|i: int| 0 <= i < t.len() ==> t[i] == lower_byte(s[i]));
            if is_leading_byte_width_1(s[0]) {
                assert(is_leading_byte_width_1(t[0]));
            } else {
                assert(s[0] > 90);
                assert(t[0] == s[0]);
            }
            assert(length_of_first_codepoint(t) == n);
        }
        let c = decode_first_scalar(s) as char;
        let d = decode_first_scalar(t) as char;
        assert(valid_first_scalar(t) && lower_char(c) == d) by {
            if is_leading_byte_width_1(s[0]) {
                let b = s[0];
                let lb = lower_byte(b);
                assert(codepoint_width_1(b) == b && codepoint_width_1(lb) == lb && lb <= 0x7f)
                    by (bit_vector)
                    requires
                        b <= 0x7f && lb == (if 65 <= b <= 90 {
                            (b + 32) as u8
                        } else {
                            b
                        }),
                ;
                assert(t[0] == lb);
                assert(decode_first_scalar(t) == lb as u32);
                assert(decode_first_scalar(s) == b as u32);
                assert(c as u32 == b as u32);
                if 65 <= b <= 90 {
                    assert('A' <= c <= 'Z');
                    assert(lower_char(c) as u32 == lb as u32);
                } else {
                    assert(!('A' <= c <= 'Z'));
                }
            } else {
                assert(forall|i: int| 0 <= i < s.len() && s[i] > 90 ==> t[i] == s[i]);
                assert(s[0] > 90 && t[0] == s[0]);
                assert(forall|i: int|
                    1 <= i < n ==> is_continuation_byte(s[i]) && #[trigger] t[i] == s[i]);
                assert(decode_first_codepoint(t) == decode_first_codepoint(s));
                let cp = decode_first_codepoint(s);
                assert(not_overlong_encoding(cp, length_of_first_codepoint(s)));
                let b1 = s[0];
                if is_leading_byte_width_2(b1) {
                    let b2 = s[1];
                    assert((((b1 & 0x1F) as u32) << 6) | ((b2 & 0x3f) as u32) <= 0x7ff)
                        by (bit_vector);
                    assert(cp <= 0x7ff);
                } else if is_leading_byte_width_3(b1) {
                    let b2 = s[1];
                    let b3 = s[2];
                    assert(((((b1 & 0x0F) as u32) << 12) | (((b2 & 0x3f) as u32) << 6) | ((b3
                        & 0x3f) as u32)) <= 0xffff) by (bit_vector);
                    assert(cp <= 0xffff);
                } else {
                    assert(cp <= 0x10ffff);
                }
                assert(cp >= 0x80);
                assert(vstd::utf8::not_surrogate(cp));
                assert(c as u32 == cp);
                assert(!('A' <= c <= 'Z'));
            }
        }
        assert(decode_utf8(t) == seq![d] + decode_utf8(pop_first_scalar(t)));
        assert(decode_utf8(s) == seq![c] + decode_utf8(rest));
        assert(lower_chars(decode_utf8(s)) =~= seq![lower_char(c)] + lower_chars(
            decode_utf8(rest),
        ));
        assert(decode_utf8(t) =~= lower_chars(decode_utf8(s)));
    }
}


/// Colon, the first byte of a header separator.
pub const COLON: u8 = 58;

/// True when every character is an ASCII decimal digit.
pub open spec fn all_digits(s: Seq<char>) -> bool {
    forall|i: int| 0 <= i < s.len() ==> '0' <= #[trigger] s[i] <= '9'
}

/// The numeric value of a decimal digit string.
pub open spec fn dec_value(s: Seq<char>) -> int
    decreases s.len(),
{
    if s.len() == 0 {
        0
    } else {
        dec_value(s.drop_last()) * 10 + (s.last() as u32 - 48)
    }
}

pub proof fn lemma_dec_value_nonneg(s: Seq<char>)
    requires
        all_digits(s),
    ensures
        dec_value(s) >= 0,
    decreases s.len(),
{
    if s.len() > 0 {
        assert(all_digits(s.drop_last())) by {
            assert(forall|i: int| 0 <= i < s.len() - 1 ==> s.drop_last()[i] == s[i]);
        }
        lemma_dec_value_nonneg(s.drop_last());
    }
}

pub proof fn lemma_dec_value_step(s: Seq<char>, j: int)
    requires
        0 <= j < s.len(),
    ensures
        dec_value(s.take(j + 1)) == 10 * dec_value(s.take(j)) + (s[j] as u32 - 48),
{
    assert(s.take(j + 1).drop_last() =~= s.take(j));
    assert(s.take(j + 1).last() == s[j]);
}

pub proof fn lemma_dec_value_mono(s: Seq<char>, j: int)
    requires
        all_digits(s),
        0 <= j <= s.len(),
    ensures
        dec_value(s.take(j)) <= dec_value(s),
    decreases s.len() - j,
{
    if j == s.len() {
        assert(s.take(j) =~= s);
    } else {
        lemma_dec_value_step(s, j);
        assert(all_digits(s.take(j))) by {
            assert(forall|i: int| 0 <= i < j ==> s.take(j)[i] == s[i]);
        }
        lemma_dec_value_nonneg(s.take(j));
        lemma_dec_value_mono(s, j + 1);
    }
}

/// The decimal value of the string, when it is a non-empty digit string whose
/// value fits in `usize`; `None` otherwise.
pub fn parse_decimal(s: &str) -> (r: Option<usize>)
    ensures
        r is Some <==> (s@.len() > 0 && all_digits(s@) && dec_value(s@) <= usize::MAX),
        r is Some ==> r->0 as int == dec_value(s@),
{
    if !s.is_ascii() {
        proof {
            let i = choose|i: int| 0 <= i < s@.len() && !('\0' <= #[trigger] s@[i] <= '\u{7f}');
            assert(!('0' <= s@[i] <= '9'));
        }
        return None;
    }
    let n = s.unicode_len();
    if n == 0 {
        return None;
    }
    let mut acc: usize = 0;
    let mut i: usize = 0;
    proof {
        assert(s@.take(0) =~= Seq::<char>::empty());
    }
    while i < n
        invariant
            vstd::string::is_ascii(s),
            n == s@.len(),
            i <= n,
            all_digits(s@.take(i as int)),
            acc == dec_value(s@.take(i as int)),
        decreases n - i,
    {
        let b = s.get_ascii(i);
        proof {
            assert(s@[i as int] as u32 <= 0x7f);
            assert(b == s@[i as int] as u32);
        }
        if b < 48 || b > 57 {
            proof {
                assert(!('0' <= s@[i as int] <= '9'));
            }
            return None;
        }
        let d = (b - 48) as usize;
        proof {
            lemma_dec_value_step(s@, i as int);
            assert(s@.take(i + 1)[i as int] == s@[i as int]);
            assert(all_digits(s@.take(i + 1))) by {
                assert(forall|j: int| 0 <= j < i ==> s@.take(i + 1)[j] == s@.take(i as int)[j]);
            }
        }
        let m = match acc.checked_mul(10) {
            Some(m) => m,
            None => {
                proof {
                    if all_digits(s@) {
                        lemma_dec_value_mono(s@, i + 1);
                    }
                }
                return None;
            },
        };
        acc = match m.checked_add(d) {
            Some(v) => v,
            None => {
                proof {
                    if all_digits(s@) {
                        lemma_dec_value_mono(s@, i + 1);
                    }
                }
                return None;
            },
        };
        i = i + 1;
    }
    proof {
        assert(s@.take(n as int) =~= s@);
    }
    Some(acc)
}

/// The position of the first `": "` in the line, if any.
pub open spec fn find_colon_space(l: Seq<u8>) -> Option<int>
    decreases l.len(),
{
    if l.len() < 2 {
        None
    } else if l[0] == COLON && l[1] == SP {
        Some(0)
    } else {
        match find_colon_space(l.drop_first()) {
            None => None,
            Some(i) => Some(i + 1),
        }
    }
}

/// The first `": "` is a real occurrence with none before it; `None` means
/// there is no occurrence at all.
pub proof fn lemma_find_colon_space(l: Seq<u8>)
    ensures
        match find_colon_space(l) {
            Some(i) => 0 <= i && i + 2 <= l.len() && l[i] == COLON && l[i + 1] == SP
                && forall|j: int| 0 <= j < i ==> !(#[trigger] l[j] == COLON && l[j + 1] == SP),
            None => forall|j: int|
                0 <= j && j + 1 < l.len() ==> !(#[trigger] l[j] == COLON && l[j + 1] == SP),
        },
    decreases l.len(),
{
    if l.len() < 2 {
    } else if l[0] == COLON && l[1] == SP {
    } else {
        let d = l.drop_first();
        lemma_find_colon_space(d);
        match find_colon_space(d) {
            Some(i) => {
                assert(d[i] == l[i + 1] && d[i + 1] == l[i + 2]);
                assert forall|j: int| 0 <= j < i + 1 implies !(#[trigger] l[j] == COLON && l[j
                    + 1] == SP) by {
                    if j > 0 {
                        assert(d[j - 1] == l[j] && d[j] == l[j + 1]);
                    }
                }
            },
            None => {
                assert forall|j: int| 0 <= j && j + 1 < l.len() implies !(#[trigger] l[j] == COLON
                    && l[j + 1] == SP) by {
                    if j > 0 {
                        assert(d[j - 1] == l[j] && d[j] == l[j + 1]);
                    }
                }
            },
        }
    }
}

/// The position of the first `": "` in the byte vector, if any.
pub fn find_header_sep(l: &Vec<u8>) -> (r: Option<usize>)
    ensures
        match r {
            Some(i) => find_colon_space(l@) == Some(i as int),
            None => find_colon_space(l@) is None,
        },
{
    proof {
        lemma_find_colon_space(l@);
    }
    if l.len() < 2 {
        return None;
    }
    let mut i: usize = 0;
    while i < l.len() - 1
        invariant
            l@.len() >= 2,
            i + 1 <= l@.len(),
            forall|j: int| 0 <= j < i ==> !(#[trigger] l@[j] == COLON && l@[j + 1] == SP),
        decreases l@.len() - i,
    {
        if l[i] == COLON && l[i + 1] == SP {
            proof {
                lemma_find_colon_space(l@);
            }
            return Some(i);
        }
        i = i + 1;
    }
    proof {
        lemma_find_colon_space(l@);
    }
    None
}

/// Relies on `str::from_utf8` and `str::to_owned`: conversion succeeds exactly
/// on valid UTF-8 input, and the returned string holds the decoded characters
/// of that input.
#[verifier::external_body]
pub fn bytes_to_string(v: &Vec<u8>) -> (r: Option<String>)
    ensures
        r is Some <==> valid_utf8(v@),
        r is Some ==> r->0@ == decode_utf8(v@),
{
    match core::str::from_utf8(v.as_slice()) {
        Ok(s) => Some(s.to_owned()),
        Err(_) => None,
    }
}


/// `v` split at every occurrence of `sep`.
pub fn split_bytes(v: &Vec<u8>, sep: u8) -> (r: Vec<Vec<u8>>)
    ensures
        views_of(r@) == split_on(v@, sep),
{
    let mut out: Vec<Vec<u8>> = Vec::new();
    let mut cur: Vec<u8> = Vec::new();
    let mut i: usize = 0;
    proof {
        assert(v@.take(0) =~= Seq::<u8>::empty());
    }
    while i < v.len()
        invariant
            i <= v@.len(),
            split_on(v@.take(i as int), sep).len() >= 1,
            split_on(v@.take(i as int), sep).drop_last() == views_of(out@),
            split_on(v@.take(i as int), sep).last() == cur@,
        decreases v@.len() - i,
    {
        let ghost pieces = split_on(v@.take(i as int), sep);
        let b = v[i];
        proof {
            assert(v@.take(i + 1) =~= v@.take(i as int).push(b));
            lemma_split_on_push(v@.take(i as int), sep, b);
        }
        if b == sep {
            let ghost old_out = out@;
            out.push(cur);
            cur = Vec::new();
            proof {
                assert(split_on(v@.take(i + 1), sep).drop_last() =~= views_of(old_out).push(
                    pieces.last(),
                ));
                assert(views_of(out@) =~= views_of(old_out).push(pieces.last()));
            }
        } else {
            cur.push(b);
            proof {
                assert(split_on(v@.take(i + 1), sep).drop_last() =~= pieces.drop_last());
            }
        }
        i = i + 1;
    }
    let ghost pieces = split_on(v@.take(v@.len() as int), sep);
    let ghost old_out = out@;
    out.push(cur);
    proof {
        assert(v@.take(v@.len() as int) =~= v@);
        assert(views_of(out@) =~= views_of(old_out).push(pieces.last()));
        assert(views_of(out@) =~= pieces.drop_last().push(pieces.last()));
        assert(pieces.drop_last().push(pieces.last()) =~= pieces);
    }
    out
}

/// The bytes of `v` from `from` (inclusive) to `to` (exclusive).
pub fn sub_vec(v: &Vec<u8>, from: usize, to: usize) -> (r: Vec<u8>)
    requires
        from <= to <= v@.len(),
    ensures
        r@ == v@.subrange(from as int, to as int),
{
    let mut out: Vec<u8> = Vec::new();
    let mut i: usize = from;
    while i < to
        invariant
            from <= i <= to <= v@.len(),
            out@ == v@.subrange(from as int, i as int),
        decreases to - i,
    {
        out.push(v[i]);
        proof {
            assert(v@.subrange(from as int, i + 1) =~= v@.subrange(from as int, i as int).push(
                v@[i as int],
            ));
        }
        i = i + 1;
    }
    out
}

/// The decoded, ASCII-lowercased form of the bytes, when they are valid UTF-8.
pub fn bytes_to_lower_string(v: &Vec<u8>) -> (r: Option<String>)
    ensures
        r is Some <==> valid_utf8(v@),
        r is Some ==> r->0@ == lower_chars(decode_utf8(v@)),
{
    match bytes_to_string(v) {
        None => None,
        Some(_) => {
            let mut w: Vec<u8> = Vec::new();
            w.extend_from_slice(v.as_slice());
            proof {
                assert(w@ =~= v@);
            }
            lower_bytes_vec(&mut w);
            proof {
                lemma_lower_bytes_utf8(v@);
            }
            bytes_to_string(&w)
        },
    }
}


/// Appends the UTF-8 bytes of `s` to `out`.
pub fn push_str_bytes(out: &mut Vec<u8>, s: &str)
    ensures
        final(out)@ == old(out)@ + vstd::utf8::encode_utf8(s@),
{
    let mut b = s.as_bytes_vec();
    out.append(&mut b);
}


/// The index of the last occurrence of `c` in `s`, if any.
pub open spec fn last_index_of_char(s: Seq<char>, c: char) -> Option<int>
    decreases s.len(),
{
    if s.len() == 0 {
        None
    } else if s.last() == c {
        Some(s.len() - 1)
    } else {
        last_index_of_char(s.drop_last(), c)
    }
}

/// The last occurrence is a real occurrence with none after it; `None` means
/// there is no occurrence at all.
pub proof fn lemma_last_index_of_char(s: Seq<char>, c: char)
    ensures
        match last_index_of_char(s, c) {
            Some(i) => 0 <= i < s.len() && s[i] == c && forall|j: int|
                i < j < s.len() ==> s[j] != c,
            None => forall|j: int| 0 <= j < s.len() ==> s[j] != c,
        },
    decreases s.len(),
{
    if s.len() == 0 {
    } else if s.last() == c {
    } else {
        lemma_last_index_of_char(s.drop_last(), c);
        assert(forall|j: int| 0 <= j < s.len() - 1 ==> s.drop_last()[j] == s[j]);
    }
}

/// The position of the last occurrence of `c` in the string, if any.
pub fn rfind_char(s: &str, c: char) -> (r: Option<usize>)
    ensures
        match r {
            Some(i) => last_index_of_char(s@, c) == Some(i as int),
            None => last_index_of_char(s@, c) is None,
        },
{
    proof {
        lemma_last_index_of_char(s@, c);
    }
    let n = s.unicode_len();
    let mut k: usize = n;
    while k > 0
        invariant
            k <= n,
            n == s@.len(),
            forall|j: int| k <= j < n ==> s@[j] != c,
        decreases k,
    {
        let ch = s.get_char(k - 1);
        if ch == c {
            proof {
                lemma_last_index_of_char(s@, c);
            }
            return Some(k - 1);
        }
        k = k - 1;
    }
    None
}

/// The string with every upper-case ASCII letter lowered.
pub fn lower_string(s: &str) -> (r: String)
    ensures
        r@ == lower_chars(s@),
{
    let mut b = s.as_bytes_vec();
    proof {
        vstd::utf8::encode_utf8_valid_utf8(s@);
    }
    lower_bytes_vec(&mut b);
    proof {
        lemma_lower_bytes_utf8(vstd::utf8::encode_utf8(s@));
        vstd::utf8::encode_utf8_decode_utf8(s@);
    }
    match bytes_to_string(&b) {
        Some(r) => r,
        None => {
            proof {
                assert(false);
            }
            String::new()
        },
    }
}

/// True when the two string views are equal, decided byte by byte.
pub fn str_eq(a: &str, b: &str) -> (r: bool)
    ensures
        r == (a@ == b@),
{
    let ab = a.as_bytes();
    let bb = b.as_bytes();
    if ab.len() != bb.len() {
        proof {
            vstd::utf8::encode_utf8_decode_utf8(a@);
            vstd::utf8::encode_utf8_decode_utf8(b@);
        }
        return false;
    }
    let mut i: usize = 0;
    while i < ab.len()
        invariant
            i <= ab@.len(),
            ab@.len() == bb@.len(),
            ab@ == a.spec_bytes(),
            bb@ == b.spec_bytes(),
            forall|j: int| 0 <= j < i ==> ab@[j] == bb@[j],
        decreases ab@.len() - i,
    {
        if ab[i] != bb[i] {
            proof {
                vstd::utf8::encode_utf8_decode_utf8(a@);
                vstd::utf8::encode_utf8_decode_utf8(b@);
            }
            return false;
        }
        i = i + 1;
    }
    proof {
        assert(a.spec_bytes() =~= b.spec_bytes());
        vstd::utf8::encode_utf8_decode_utf8(a@);
        vstd::utf8::encode_utf8_decode_utf8(b@);
    }
    true
}

} // verus!
