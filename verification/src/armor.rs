//! ASCII armor for the binary encrypted-file structure: strict base64 with
//! padding, folded into lines of 64 columns between a begin and an end marker
//! line. The encoding is canonical — the decoder rejects non-zero padding
//! bits, wrong line lengths and malformed markers — so armor-decoding a
//! freshly produced armor text yields exactly the binary payload that was
//! armored, and any corruption is detected.

use vstd::prelude::*;
use vstd::string::StrSliceExecFns;
use vstd::string::StringSliceAdditionalSpecFns;

use crate::util::bytes_eq;
use crate::util::extend_bytes;
use crate::util::has_prefix;
use crate::util::is_prefix_of;
use crate::util::lit_bytes;

verus! {

/// Byte value of the line feed that ends every armor line.
pub const NL: u8 = 10;

/// Byte value of the padding character `=`.
pub const PAD: u8 = 61;

/// The base64 character for a six-bit value.
pub open spec fn enc6(d: u8) -> u8
    recommends
        d < 64,
{
    if d < 26 {
        (d + 65) as u8  // 'A'..='Z'
    } else if d < 52 {
        (d + 71) as u8  // 'a'..='z'
    } else if d < 62 {
        (d - 4) as u8  // '0'..='9'
    } else if d == 62 {
        43  // '+'
    } else {
        47  // '/'
    }
}

/// Whether a byte is a base64 alphabet character (padding excluded).
pub open spec fn is_b64(c: u8) -> bool {
    ||| (65 <= c <= 90)
    ||| (97 <= c <= 122)
    ||| (48 <= c <= 57)
    ||| c == 43
    ||| c == 47
}

/// The six-bit value of a base64 alphabet character.
pub open spec fn dec6(c: u8) -> u8
    recommends
        is_b64(c),
{
    if 65 <= c <= 90 {
        (c - 65) as u8
    } else if 97 <= c <= 122 {
        (c - 71) as u8
    } else if 48 <= c <= 57 {
        (c + 4) as u8
    } else if c == 43 {
        62
    } else {
        63
    }
}

/// Encoding a six-bit value gives an alphabet character that decodes back.
pub proof fn lemma_enc6(d: u8)
    requires
        d < 64,
    ensures
        is_b64(enc6(d)),
        dec6(enc6(d)) == d,
        enc6(d) != PAD,
        enc6(d) != NL,
{
}

/// The base64 character stream (with padding) of a byte string, grouped
/// three bytes into four characters.
pub open spec fn b64_groups(data: Seq<u8>) -> Seq<u8>
    decreases data.len(),
{
    if data.len() == 0 {
        Seq::empty()
    } else if data.len() == 1 {
        seq![enc6(data[0] >> 2), enc6((data[0] & 3) << 4), PAD, PAD]
    } else if data.len() == 2 {
        seq![
            enc6(data[0] >> 2),
            enc6(((data[0] & 3) << 4) | (data[1] >> 4)),
            enc6((data[1] & 15) << 2),
            PAD,
        ]
    } else {
        seq![
            enc6(data[0] >> 2),
            enc6(((data[0] & 3) << 4) | (data[1] >> 4)),
            enc6(((data[1] & 15) << 2) | (data[2] >> 6)),
            enc6(data[2] & 63),
        ] + b64_groups(data.skip(3))
    }
}

/// Strict base64 decoding of a character stream: four characters at a time,
/// padding only in a final group, padding bits required to be zero.
pub open spec fn b64_dec(text: Seq<u8>) -> Option<Seq<u8>>
    decreases text.len(),
{
    if text.len() == 0 {
        Some(Seq::empty())
    } else if text.len() < 4 {
        None
    } else {
        let c0 = text[0];
        let c1 = text[1];
        let c2 = text[2];
        let c3 = text[3];
        if !is_b64(c0) || !is_b64(c1) {
            None
        } else if c2 == PAD && c3 == PAD {
            if text.len() == 4 && dec6(c1) & 15 == 0 {
                Some(seq![(dec6(c0) << 2) | (dec6(c1) >> 4)])
            } else {
                None
            }
        } else if c3 == PAD {
            if text.len() == 4 && is_b64(c2) && dec6(c2) & 3 == 0 {
                Some(
                    seq![
                        (dec6(c0) << 2) | (dec6(c1) >> 4),
                        (dec6(c1) << 4) | (dec6(c2) >> 2),
                    ],
                )
            } else {
                None
            }
        } else if is_b64(c2) && is_b64(c3) {
            match b64_dec(text.skip(4)) {
                Some(rest) => Some(
                    seq![
                        (dec6(c0) << 2) | (dec6(c1) >> 4),
                        (dec6(c1) << 4) | (dec6(c2) >> 2),
                        (dec6(c2) << 6) | dec6(c3),
                    ] + rest,
                ),
                None => None,
            }
        } else {
            None
        }
    }
}

/// Splitting a byte string at a three-byte boundary splits its base64
/// character stream at the corresponding group boundary.
pub proof fn lemma_b64_groups_append(s: Seq<u8>, t: Seq<u8>)
    requires
        s.len() % 3 == 0,
    ensures
        b64_groups(s + t) == b64_groups(s) + b64_groups(t),
    decreases s.len(),
{
    if s.len() == 0 {
        assert(s + t =~= t);
        assert(b64_groups(s) + b64_groups(t) =~= b64_groups(t));
    } else {
        let u = s + t;
        assert(u.len() >= 3);
        assert(u[0] == s[0] && u[1] == s[1] && u[2] == s[2]);
        assert(u.skip(3) =~= s.skip(3) + t);
        lemma_b64_groups_append(s.skip(3), t);
        assert(b64_groups(u) =~= b64_groups(s) + b64_groups(t));
    }
}

/// Every character the encoder emits is an alphabet character or padding;
/// in particular it is never a line feed.
pub proof fn lemma_b64_groups_valid(data: Seq<u8>)
    ensures
        forall|i: int|
            0 <= i < b64_groups(data).len() ==> (is_b64(#[trigger] b64_groups(data)[i])
                || b64_groups(data)[i] == PAD),
        !b64_groups(data).contains(NL),
    decreases data.len(),
{
    if data.len() == 0 {
    } else if data.len() == 1 {
        let b0 = data[0];
        assert(b0 >> 2 < 64 && (b0 & 3) << 4 < 64) by (bit_vector);
        lemma_enc6(b0 >> 2);
        lemma_enc6((b0 & 3) << 4);
    } else if data.len() == 2 {
        let b0 = data[0];
        let b1 = data[1];
        assert(b0 >> 2 < 64 && ((b0 & 3) << 4) | (b1 >> 4) < 64 && (b1 & 15) << 2 < 64)
            by (bit_vector);
        lemma_enc6(b0 >> 2);
        lemma_enc6(((b0 & 3) << 4) | (b1 >> 4));
        lemma_enc6((b1 & 15) << 2);
    } else {
        let b0 = data[0];
        let b1 = data[1];
        let b2 = data[2];
        assert(b0 >> 2 < 64 && ((b0 & 3) << 4) | (b1 >> 4) < 64 && ((b1 & 15) << 2) | (b2
            >> 6) < 64 && b2 & 63 < 64) by (bit_vector);
        lemma_enc6(b0 >> 2);
        lemma_enc6(((b0 & 3) << 4) | (b1 >> 4));
        lemma_enc6(((b1 & 15) << 2) | (b2 >> 6));
        lemma_enc6(b2 & 63);
        lemma_b64_groups_valid(data.skip(3));
    }
    if b64_groups(data).contains(NL) {
        let i = choose|i: int| 0 <= i < b64_groups(data).len() && b64_groups(data)[i] == NL;
        assert(is_b64(b64_groups(data)[i]) || b64_groups(data)[i] == PAD);
    }
}

/// Base64 fidelity: decoding the encoder's character stream yields exactly
/// the bytes that were encoded.
pub proof fn lemma_b64_round_trip(data: Seq<u8>)
    ensures
        b64_dec(b64_groups(data)) == Some(data),
    decreases data.len(),
{
    if data.len() == 0 {
    } else if data.len() == 1 {
        let b0 = data[0];
        assert(b0 >> 2 < 64 && (b0 & 3) << 4 < 64) by (bit_vector);
        lemma_enc6(b0 >> 2);
        lemma_enc6((b0 & 3) << 4);
        assert(((b0 & 3) << 4) & 15 == 0 && ((b0 >> 2) << 2) | (((b0 & 3) << 4) >> 4) == b0)
            by (bit_vector);
        assert(b64_dec(b64_groups(data)) =~= Some(data)) by {
            assert(b64_groups(data).len() == 4);
            assert(seq![b0] =~= data);
        }
    } else if data.len() == 2 {
        let b0 = data[0];
        let b1 = data[1];
        assert(b0 >> 2 < 64 && ((b0 & 3) << 4) | (b1 >> 4) < 64 && (b1 & 15) << 2 < 64)
            by (bit_vector);
        lemma_enc6(b0 >> 2);
        lemma_enc6(((b0 & 3) << 4) | (b1 >> 4));
        lemma_enc6((b1 & 15) << 2);
        assert(((b1 & 15) << 2) & 3 == 0 && ((b0 >> 2) << 2) | ((((b0 & 3) << 4) | (b1 >> 4))
            >> 4) == b0 && (((((b0 & 3) << 4) | (b1 >> 4))) << 4) | (((b1 & 15) << 2) >> 2)
            == b1) by (bit_vector);
        assert(b64_dec(b64_groups(data)) =~= Some(data)) by {
            assert(b64_groups(data).len() == 4);
            assert(seq![b0, b1] =~= data);
        }
    } else {
        let b0 = data[0];
        let b1 = data[1];
        let b2 = data[2];
        assert(b0 >> 2 < 64 && ((b0 & 3) << 4) | (b1 >> 4) < 64 && ((b1 & 15) << 2) | (b2 >> 6)
            < 64 && b2 & 63 < 64) by (bit_vector);
        lemma_enc6(b0 >> 2);
        lemma_enc6(((b0 & 3) << 4) | (b1 >> 4));
        lemma_enc6(((b1 & 15) << 2) | (b2 >> 6));
        lemma_enc6(b2 & 63);
        assert(((b0 >> 2) << 2) | ((((b0 & 3) << 4) | (b1 >> 4)) >> 4) == b0 && ((((b0 & 3)
            << 4) | (b1 >> 4)) << 4) | (((((b1 & 15) << 2) | (b2 >> 6))) >> 2) == b1
            && (((((b1 & 15) << 2) | (b2 >> 6))) << 6) | (b2 & 63) == b2) by (bit_vector);
        lemma_b64_round_trip(data.skip(3));
        let g = b64_groups(data);
        let rest = b64_groups(data.skip(3));
        assert(g.len() == 4 + rest.len());
        assert(g.skip(4) =~= rest);
        assert(b64_dec(g) matches Some(v) && v =~= data);
    }
}

/// Computes `enc6`.
fn enc6_exec(d: u8) -> (r: u8)
    requires
        d < 64,
    ensures
        r == enc6(d),
{
    if d < 26 {
        d + 65
    } else if d < 52 {
        d + 71
    } else if d < 62 {
        d - 4
    } else if d == 62 {
        43
    } else {
        47
    }
}

/// Whether a byte is a base64 alphabet character.
fn is_b64_exec(c: u8) -> (r: bool)
    ensures
        r == is_b64(c),
{
    (65 <= c && c <= 90) || (97 <= c && c <= 122) || (48 <= c && c <= 57) || c == 43 || c == 47
}

/// Computes `dec6`.
fn dec6_exec(c: u8) -> (r: u8)
    requires
        is_b64(c),
    ensures
        r == dec6(c),
        r < 64,
{
    if 65 <= c && c <= 90 {
        c - 65
    } else if 97 <= c && c <= 122 {
        c - 71
    } else if 48 <= c && c <= 57 {
        c + 4
    } else if c == 43 {
        62
    } else {
        63
    }
}

/// Encodes a byte string as the base64 character stream.
pub fn base64_encode(data: &[u8]) -> (r: Vec<u8>)
    ensures
        r@ == b64_groups(data@),
{
    let n = data.len();
    let mut r: Vec<u8> = Vec::new();
    let mut i: usize = 0;
    while n - i >= 3
        invariant
            n == data@.len(),
            i % 3 == 0,
            i <= data@.len(),
            r@ == b64_groups(data@.take(i as int)),
        decreases data@.len() - i,
    {
        let b0 = data[i];
        let b1 = data[i + 1];
        let b2 = data[i + 2];
        proof {
            assert(b0 >> 2 < 64 && ((b0 & 3) << 4) | (b1 >> 4) < 64 && ((b1 & 15) << 2) | (b2
                >> 6) < 64 && b2 & 63 < 64) by (bit_vector);
        }
        r.push(enc6_exec(b0 >> 2));
        r.push(enc6_exec(((b0 & 3) << 4) | (b1 >> 4)));
        r.push(enc6_exec(((b1 & 15) << 2) | (b2 >> 6)));
        r.push(enc6_exec(b2 & 63));
        proof {
            let pre = data@.take(i as int);
            let chunk = data@.subrange(i as int, i + 3);
            assert(data@.take(i + 3) =~= pre + chunk);
            lemma_b64_groups_append(pre, chunk);
            assert(chunk.len() == 3 && chunk[0] == b0 && chunk[1] == b1 && chunk[2] == b2);
            assert(chunk.skip(3) =~= Seq::<u8>::empty());
            assert(b64_groups(Seq::<u8>::empty()) =~= Seq::<u8>::empty());
            assert(b64_groups(chunk) =~= seq![
                enc6(b0 >> 2),
                enc6(((b0 & 3) << 4) | (b1 >> 4)),
                enc6(((b1 & 15) << 2) | (b2 >> 6)),
                enc6(b2 & 63),
            ]);
            assert(r@ =~= b64_groups(data@.take(i + 3)));
        }
        i += 3;
    }
    let rem = data.len() - i;
    if rem == 1 {
        let b0 = data[i];
        proof {
            assert(b0 >> 2 < 64 && (b0 & 3) << 4 < 64) by (bit_vector);
        }
        r.push(enc6_exec(b0 >> 2));
        r.push(enc6_exec((b0 & 3) << 4));
        r.push(PAD);
        r.push(PAD);
        proof {
            let pre = data@.take(i as int);
            let chunk = data@.subrange(i as int, data@.len() as int);
            assert(data@ =~= pre + chunk);
            lemma_b64_groups_append(pre, chunk);
            assert(chunk.len() == 1 && chunk[0] == b0);
            assert(r@ =~= b64_groups(data@));
        }
    } else if rem == 2 {
        let b0 = data[i];
        let b1 = data[i + 1];
        proof {
            assert(b0 >> 2 < 64 && ((b0 & 3) << 4) | (b1 >> 4) < 64 && (b1 & 15) << 2 < 64)
                by (bit_vector);
        }
        r.push(enc6_exec(b0 >> 2));
        r.push(enc6_exec(((b0 & 3) << 4) | (b1 >> 4)));
        r.push(enc6_exec((b1 & 15) << 2));
        r.push(PAD);
        proof {
            let pre = data@.take(i as int);
            let chunk = data@.subrange(i as int, data@.len() as int);
            assert(data@ =~= pre + chunk);
            lemma_b64_groups_append(pre, chunk);
            assert(chunk.len() == 2 && chunk[0] == b0 && chunk[1] == b1);
            assert(r@ =~= b64_groups(data@));
        }
    } else {
        proof {
            assert(data@.take(i as int) =~= data@);
        }
    }
    r
}

/// Decodes a base64 character stream; rejects anything the encoder cannot
/// have produced.
pub fn base64_decode(text: &[u8]) -> (r: Option<Vec<u8>>)
    ensures
        match r {
            Some(v) => b64_dec(text@) == Some(v@),
            None => b64_dec(text@) is None,
        },
{
    let mut out: Vec<u8> = Vec::new();
    let mut pos: usize = 0;
    proof {
        assert(text@.skip(0) =~= text@);
        if b64_dec(text@) is Some {
            assert(Seq::<u8>::empty() + b64_dec(text@)->Some_0 =~= b64_dec(text@)->Some_0);
        }
    }
    loop
        invariant
            pos <= text@.len(),
            (match b64_dec(text@.skip(pos as int)) {
                Some(rest) => b64_dec(text@) == Some(out@ + rest),
                None => b64_dec(text@) is None,
            }),
        decreases text@.len() - pos,
    {
        let n = text.len() - pos;
        proof {
            assert(text@.skip(pos as int).len() == n);
        }
        if n == 0 {
            proof {
                assert(text@.skip(pos as int) =~= Seq::<u8>::empty());
                assert(out@ + Seq::<u8>::empty() =~= out@);
            }
            return Some(out);
        }
        if n < 4 {
            return None;
        }
        let c0 = text[pos];
        let c1 = text[pos + 1];
        let c2 = text[pos + 2];
        let c3 = text[pos + 3];
        let ghost t = text@.skip(pos as int);
        proof {
            assert(t[0] == c0 && t[1] == c1 && t[2] == c2 && t[3] == c3);
        }
        if !is_b64_exec(c0) || !is_b64_exec(c1) {
            return None;
        }
        let d0 = dec6_exec(c0);
        let d1 = dec6_exec(c1);
        if c2 == PAD && c3 == PAD {
            if n == 4 && d1 & 15 == 0 {
                out.push((d0 << 2) | (d1 >> 4));
                proof {
                    assert(t.len() == 4);
                    assert(b64_dec(t) == Some(seq![(dec6(c0) << 2) | (dec6(c1) >> 4)]));
                    assert(out@ =~= out@.drop_last() + seq![(dec6(c0) << 2) | (dec6(c1) >> 4)]);
                }
                return Some(out);
            }
            return None;
        }
        if c3 == PAD {
            if n == 4 && is_b64_exec(c2) {
                let d2 = dec6_exec(c2);
                if d2 & 3 == 0 {
                    out.push((d0 << 2) | (d1 >> 4));
                    out.push((d1 << 4) | (d2 >> 2));
                    proof {
                        assert(t.len() == 4);
                        assert(b64_dec(t) == Some(
                            seq![
                                (dec6(c0) << 2) | (dec6(c1) >> 4),
                                (dec6(c1) << 4) | (dec6(c2) >> 2),
                            ],
                        ));
                        assert(out@ =~= out@.subrange(0, out@.len() - 2) + seq![
                            (dec6(c0) << 2) | (dec6(c1) >> 4),
                            (dec6(c1) << 4) | (dec6(c2) >> 2),
                        ]);
                    }
                    return Some(out);
                }
            }
            return None;
        }
        if !is_b64_exec(c2) || !is_b64_exec(c3) {
            return None;
        }
        let d2 = dec6_exec(c2);
        let d3 = dec6_exec(c3);
        let ghost old_out = out@;
        out.push((d0 << 2) | (d1 >> 4));
        out.push((d1 << 4) | (d2 >> 2));
        out.push((d2 << 6) | d3);
        proof {
            assert(t.skip(4) =~= text@.skip(pos + 4));
            assert(out@ =~= old_out + seq![
                (dec6(c0) << 2) | (dec6(c1) >> 4),
                (dec6(c1) << 4) | (dec6(c2) >> 2),
                (dec6(c2) << 6) | dec6(c3),
            ]);
            if b64_dec(text@.skip(pos + 4)) is Some {
                let rest = b64_dec(text@.skip(pos + 4))->Some_0;
                assert(b64_dec(t) == Some(
                    seq![
                        (dec6(c0) << 2) | (dec6(c1) >> 4),
                        (dec6(c1) << 4) | (dec6(c2) >> 2),
                        (dec6(c2) << 6) | dec6(c3),
                    ] + rest,
                ));
                assert(old_out + (seq![
                    (dec6(c0) << 2) | (dec6(c1) >> 4),
                    (dec6(c1) << 4) | (dec6(c2) >> 2),
                    (dec6(c2) << 6) | dec6(c3),
                ] + rest) =~= out@ + rest);
            }
        }
        pos += 4;
    }
}

/// The base64 character stream folded into lines of 64 columns, each line
/// (the last included) ended by a line feed.
pub open spec fn wrap64(s: Seq<u8>) -> Seq<u8>
    decreases s.len(),
{
    if s.len() == 0 {
        Seq::empty()
    } else if s.len() <= 64 {
        s + seq![NL]
    } else {
        s.take(64) + seq![NL] + wrap64(s.skip(64))
    }
}

/// The inverse of `wrap64`: checks that every line but the last is exactly 64
/// columns and that the last is between 1 and 64, and concatenates the lines.
pub open spec fn unwrap_lines(s: Seq<u8>) -> Option<Seq<u8>>
    decreases s.len(),
{
    if s.len() == 0 {
        Some(Seq::empty())
    } else if s.len() <= 65 {
        if s.len() >= 2 && s.last() == NL && !s.take(s.len() - 1).contains(NL) {
            Some(s.take(s.len() - 1))
        } else {
            None
        }
    } else {
        if s[64] == NL && !s.take(64).contains(NL) {
            match unwrap_lines(s.skip(65)) {
                Some(r) => Some(s.take(64) + r),
                None => None,
            }
        } else {
            None
        }
    }
}

/// Folding a line-feed-free character stream and unfolding it again gives
/// the stream back.
pub proof fn lemma_wrap_round_trip(s: Seq<u8>)
    requires
        !s.contains(NL),
    ensures
        unwrap_lines(wrap64(s)) == Some(s),
    decreases s.len(),
{
    if s.len() == 0 {
    } else if s.len() <= 64 {
        let w = wrap64(s);
        assert(w.len() == s.len() + 1);
        assert(w.last() == NL);
        assert(w.take(w.len() - 1) =~= s);
        assert(unwrap_lines(w) == Some(s));
    } else {
        let w = wrap64(s);
        let rest = s.skip(64);
        assert(!rest.contains(NL)) by {
            if rest.contains(NL) {
                let i = choose|i: int| 0 <= i < rest.len() && rest[i] == NL;
                assert(s[64 + i] == NL);
                assert(s.contains(NL));
            }
        }
        lemma_wrap_round_trip(rest);
        assert(rest.len() > 0);
        assert(wrap64(rest).len() >= 2);
        assert(w.len() == 65 + wrap64(rest).len());
        assert(w[64] == NL);
        assert(w.take(64) =~= s.take(64));
        assert(!w.take(64).contains(NL)) by {
            if w.take(64).contains(NL) {
                let i = choose|i: int| 0 <= i < 64 && w.take(64)[i] == NL;
                assert(s[i] == NL);
                assert(s.contains(NL));
            }
        }
        assert(w.skip(65) =~= wrap64(rest));
        assert(s.take(64) + rest =~= s);
        assert(unwrap_lines(w) == Some(s));
    }
}

/// Folding distributes over splitting at a 64-column boundary.
pub proof fn lemma_wrap64_append(a: Seq<u8>, b: Seq<u8>)
    requires
        a.len() % 64 == 0,
    ensures
        wrap64(a + b) == wrap64(a) + wrap64(b),
    decreases a.len(),
{
    if a.len() == 0 {
        assert(a + b =~= b);
        assert(wrap64(a) + wrap64(b) =~= wrap64(b));
    } else if b.len() == 0 {
        assert(a + b =~= a);
        assert(wrap64(a) + wrap64(b) =~= wrap64(a));
    } else {
        let u = a + b;
        assert(u.len() > 64);
        assert(u.take(64) =~= a.take(64));
        assert(u.skip(64) =~= a.skip(64) + b);
        lemma_wrap64_append(a.skip(64), b);
        if a.len() == 64 {
            assert(a.skip(64) =~= Seq::<u8>::empty());
            assert(wrap64(Seq::<u8>::empty()) =~= Seq::<u8>::empty());
            assert(wrap64(a.skip(64)) + wrap64(b) =~= wrap64(b));
            assert(wrap64(a) =~= a.take(64) + seq![NL]);
            assert(wrap64(u) =~= wrap64(a) + wrap64(b));
        } else {
            assert(wrap64(u) =~= wrap64(a) + wrap64(b));
        }
    }
}

/// The begin marker line of an armored file, without its line feed.
pub open spec fn begin_marker() -> Seq<u8> {
    lit_bytes("-----BEGIN AGE ENCRYPTED FILE-----")
}

/// The end marker line of an armored file, without its line feed.
pub open spec fn end_marker() -> Seq<u8> {
    lit_bytes("-----END AGE ENCRYPTED FILE-----")
}

/// The armored text of a binary payload: the begin marker line, the base64
/// character stream folded at 64 columns, and the end marker line.
pub open spec fn armor_spec(data: Seq<u8>) -> Seq<u8> {
    begin_marker() + seq![NL] + wrap64(b64_groups(data)) + end_marker() + seq![NL]
}

/// Armor decoding: strips the marker lines, unfolds the lines and decodes
/// the base64 character stream; `None` on any structural violation.
pub open spec fn armor_decode_spec(text: Seq<u8>) -> Option<Seq<u8>> {
    let blen = begin_marker().len() + 1;
    let elen = end_marker().len() + 1;
    if text.len() >= blen + elen && text.take(blen as int) == begin_marker() + seq![NL]
        && text.skip(text.len() - elen) == end_marker() + seq![NL] {
        match unwrap_lines(text.subrange(blen as int, text.len() - elen)) {
            Some(chars) => b64_dec(chars),
            None => None,
        }
    } else {
        None
    }
}

/// Whether a byte string begins with the armor begin marker; this is the
/// probe that tells armored ciphertext from raw binary.
pub open spec fn is_armored(text: Seq<u8>) -> bool {
    is_prefix_of(begin_marker(), text)
}

/// Armor fidelity: armor-decoding a freshly armored payload yields exactly
/// the binary payload that was armored.
pub proof fn lemma_armor_round_trip(data: Seq<u8>)
    ensures
        armor_decode_spec(armor_spec(data)) == Some(data),
        is_armored(armor_spec(data)),
{
    let t = armor_spec(data);
    let chars = b64_groups(data);
    let w = wrap64(chars);
    let blen = begin_marker().len() + 1;
    let elen = end_marker().len() + 1;
    assert(t.len() == blen + w.len() + elen);
    assert(t.take(blen as int) =~= begin_marker() + seq![NL]);
    assert(t.skip(t.len() - elen) =~= end_marker() + seq![NL]);
    assert(t.subrange(blen as int, t.len() - elen) =~= w);
    lemma_b64_groups_valid(data);
    lemma_wrap_round_trip(chars);
    lemma_b64_round_trip(data);
    assert(t.take(begin_marker().len() as int) =~= begin_marker());
}

/// Builds the begin marker as bytes.
fn begin_marker_vec() -> (r: Vec<u8>)
    ensures
        r@ == begin_marker(),
{
    let m = "-----BEGIN AGE ENCRYPTED FILE-----";
    proof {
        reveal_strlit("-----BEGIN AGE ENCRYPTED FILE-----");
        assert(m.is_ascii());
        vstd::string::is_ascii_spec_bytes(m);
        assert(m.spec_bytes() =~= begin_marker());
    }
    m.as_bytes_vec()
}

/// Builds the end marker as bytes.
fn end_marker_vec() -> (r: Vec<u8>)
    ensures
        r@ == end_marker(),
{
    let m = "-----END AGE ENCRYPTED FILE-----";
    proof {
        reveal_strlit("-----END AGE ENCRYPTED FILE-----");
        assert(m.is_ascii());
        vstd::string::is_ascii_spec_bytes(m);
        assert(m.spec_bytes() =~= end_marker());
    }
    m.as_bytes_vec()
}

/// Armors a binary payload: base64, folded at 64 columns, between the begin
/// and end marker lines.
pub fn armor_encode(data: &Vec<u8>) -> (r: Vec<u8>)
    ensures
        r@ == armor_spec(data@),
        is_armored(r@),
{
    let chars = base64_encode(data.as_slice());
    let clen = chars.len();
    let mut out = begin_marker_vec();
    out.push(NL);
    let ghost head = begin_marker() + seq![NL];
    proof {
        assert(out@ =~= head);
        assert(head + wrap64(chars@.take(0)) =~= head);
    }
    let mut pos: usize = 0;
    while clen - pos > 64
        invariant
            pos <= clen,
            clen == chars@.len(),
            pos % 64 == 0,
            out@ == head + wrap64(chars@.take(pos as int)),
            head == begin_marker() + seq![NL],
        decreases clen - pos,
    {
        extend_bytes(&mut out, chars.as_slice(), pos, pos + 64);
        out.push(NL);
        proof {
            let a = chars@.take(pos as int);
            let chunk = chars@.subrange(pos as int, pos + 64);
            assert(chars@.take(pos + 64) =~= a + chunk);
            lemma_wrap64_append(a, chunk);
            assert(wrap64(chunk) =~= chunk + seq![NL]);
            assert(out@ =~= head + wrap64(chars@.take(pos + 64)));
        }
        pos += 64;
    }
    if clen > pos {
        extend_bytes(&mut out, chars.as_slice(), pos, clen);
        out.push(NL);
        proof {
            let a = chars@.take(pos as int);
            let chunk = chars@.subrange(pos as int, clen as int);
            assert(chars@ =~= a + chunk);
            lemma_wrap64_append(a, chunk);
            assert(wrap64(chunk) =~= chunk + seq![NL]);
            assert(out@ =~= head + wrap64(chars@));
        }
    } else {
        proof {
            assert(chars@.take(pos as int) =~= chars@);
        }
    }
    let endm = end_marker_vec();
    extend_bytes(&mut out, endm.as_slice(), 0, endm.len());
    out.push(NL);
    proof {
        assert(endm@.subrange(0, endm@.len() as int) =~= end_marker());
        assert(out@ =~= armor_spec(data@));
        assert(out@.take(begin_marker().len() as int) =~= begin_marker());
    }
    out
}

/// Unfolds the armor body lines back into the base64 character stream.
fn unwrap_lines_exec(body: &[u8]) -> (r: Option<Vec<u8>>)
    ensures
        match r {
            Some(v) => unwrap_lines(body@) == Some(v@),
            None => unwrap_lines(body@) is None,
        },
{
    let mut chars: Vec<u8> = Vec::new();
    let mut pos: usize = 0;
    proof {
        assert(body@.skip(0) =~= body@);
        if unwrap_lines(body@) is Some {
            assert(Seq::<u8>::empty() + unwrap_lines(body@)->Some_0 =~= unwrap_lines(
                body@,
            )->Some_0);
        }
    }
    loop
        invariant
            pos <= body@.len(),
            (match unwrap_lines(body@.skip(pos as int)) {
                Some(rest) => unwrap_lines(body@) == Some(chars@ + rest),
                None => unwrap_lines(body@) is None,
            }),
        decreases body@.len() - pos,
    {
        let n = body.len() - pos;
        let ghost t = body@.skip(pos as int);
        proof {
            assert(t.len() == n);
        }
        if n == 0 {
            proof {
                assert(t =~= Seq::<u8>::empty());
                assert(chars@ + Seq::<u8>::empty() =~= chars@);
            }
            return Some(chars);
        }
        if n <= 65 {
            if n < 2 {
                return None;
            }
            if body[body.len() - 1] != NL {
                proof {
                    assert(t.last() == body@[body@.len() - 1]);
                }
                return None;
            }
            let mut k = pos;
            #[verifier::loop_isolation(false)]
            while k < body.len() - 1
                invariant
                    pos <= k <= body@.len() - 1,
                    forall|j: int| pos <= j < k ==> body@[j] != NL,
                decreases body@.len() - k,
            {
                if body[k] == NL {
                    proof {
                        assert(t.take(t.len() - 1)[k - pos] == NL);
                        assert(t.take(t.len() - 1).contains(NL));
                    }
                    return None;
                }
                k += 1;
            }
            proof {
                assert(t.last() == body@[body@.len() - 1]);
                if t.take(t.len() - 1).contains(NL) {
                    let i = choose|i: int|
                        0 <= i < t.len() - 1 && #[trigger] t.take(t.len() - 1)[i] == NL;
                    assert(body@[pos + i] == NL);
                }
                assert(unwrap_lines(t) == Some(t.take(t.len() - 1)));
            }
            let ghost old_chars = chars@;
            extend_bytes(&mut chars, body, pos, body.len() - 1);
            proof {
                assert(t.take(t.len() - 1) =~= body@.subrange(pos as int, body@.len() - 1));
                assert(old_chars + t.take(t.len() - 1) =~= chars@);
            }
            return Some(chars);
        }
        if body[pos + 64] != NL {
            proof {
                assert(t[64] == body@[pos + 64]);
            }
            return None;
        }
        let mut k = pos;
        #[verifier::loop_isolation(false)]
        while k < pos + 64
            invariant
                pos <= k <= pos + 64,
                forall|j: int| pos <= j < k ==> body@[j] != NL,
            decreases pos + 64 - k,
        {
            if body[k] == NL {
                proof {
                    assert(t.take(64)[k - pos] == NL);
                    assert(t.take(64).contains(NL));
                }
                return None;
            }
            k += 1;
        }
        proof {
            assert(t[64] == body@[pos + 64]);
            if t.take(64).contains(NL) {
                let i = choose|i: int| 0 <= i < 64 && t.take(64)[i] == NL;
                assert(body@[pos + i] == NL);
            }
        }
        let ghost old_chars = chars@;
        extend_bytes(&mut chars, body, pos, pos + 64);
        proof {
            assert(t.take(64) =~= body@.subrange(pos as int, pos + 64));
            assert(t.skip(65) =~= body@.skip(pos + 65));
            if unwrap_lines(body@.skip(pos + 65)) is Some {
                let rest = unwrap_lines(body@.skip(pos + 65))->Some_0;
                assert(unwrap_lines(t) == Some(t.take(64) + rest));
                assert(old_chars + (t.take(64) + rest) =~= chars@ + rest);
            }
        }
        pos += 65;
    }
}

/// Decodes an armored text back to its binary payload; `None` on any
/// structural violation of the armor format.
pub fn armor_decode(text: &[u8]) -> (r: Option<Vec<u8>>)
    ensures
        match r {
            Some(v) => armor_decode_spec(text@) == Some(v@),
            None => armor_decode_spec(text@) is None,
        },
{
    let begin = begin_marker_vec();
    let mut endnl = end_marker_vec();
    endnl.push(NL);
    proof {
        reveal_strlit("-----BEGIN AGE ENCRYPTED FILE-----");
        reveal_strlit("-----END AGE ENCRYPTED FILE-----");
        assert(begin_marker().len() == 34);
        assert(end_marker().len() == 32);
        assert(endnl@ =~= end_marker() + seq![NL]);
    }
    let blen = begin.len() + 1;
    let elen = endnl.len();
    if text.len() < blen + elen {
        return None;
    }
    if !has_prefix(text, begin.as_slice()) {
        proof {
            if text@.take(blen as int) == begin_marker() + seq![NL] {
                assert(text@.take(begin@.len() as int) =~= begin_marker());
            }
        }
        return None;
    }
    if text[begin.len()] != NL {
        proof {
            if text@.take(blen as int) == begin_marker() + seq![NL] {
                assert(text@.take(blen as int)[blen - 1] == NL);
            }
        }
        return None;
    }
    proof {
        assert(text@.take(blen as int) =~= begin_marker() + seq![NL]);
    }
    let suffix_start = text.len() - elen;
    let suffix = vstd::slice::slice_subrange(text, suffix_start, text.len());
    if !bytes_eq(suffix, endnl.as_slice()) {
        proof {
            assert(suffix@ =~= text@.skip(text@.len() - elen));
        }
        return None;
    }
    proof {
        assert(suffix@ =~= text@.skip(text@.len() - elen));
    }
    let body = vstd::slice::slice_subrange(text, blen, suffix_start);
    proof {
        assert(body@ =~= text@.subrange(blen as int, text@.len() - elen));
    }
    let chars = match unwrap_lines_exec(body) {
        Some(c) => c,
        None => {
            return None;
        },
    };
    base64_decode(chars.as_slice())
}

/// Whether `text` begins with the armor begin marker.
pub fn probe_armored(text: &[u8]) -> (r: bool)
    ensures
        r == is_armored(text@),
{
    let begin = begin_marker_vec();
    has_prefix(text, begin.as_slice())
}

} // verus!
