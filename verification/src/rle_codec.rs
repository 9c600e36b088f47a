//! RLE <-> encoded-RLE codec: each run length is delta-coded against
//! the run length two positions earlier (from the third entry onward)
//! and stored as a signed variable-length integer, five data bits per
//! byte, offset into the ASCII range 48-111. Bit 0x20 of a data byte
//! says more bytes follow; bit 0x10 of a terminating byte says the
//! value is negative and must be sign-extended.

use crate::coco::{ints, EncodedRle, Rle};
use crate::errors::MaskError;
use vstd::arithmetic::div_mod::{lemma_fundamental_div_mod, lemma_mod_division_less_than_divisor};
use vstd::prelude::*;

verus! {

/// 32 to the power `n`: the place value of the `n`-th data byte.
pub open spec fn pow32(n: nat) -> int
    decreases n,
{
    if n == 0 {
        1
    } else {
        32 * pow32((n - 1) as nat)
    }
}

/// `x` as 32 divides it: `x == 32 * (x / 32) + x % 32` with the
/// remainder in `[0, 32)`.
proof fn lemma_euclid32(x: int)
    ensures
        x == 32 * (x / 32) + x % 32,
        0 <= x % 32 < 32,
{
    lemma_fundamental_div_mod(x, 32);
    lemma_mod_division_less_than_divisor(x, 32);
}

/// The variable-length little-endian byte encoding of the signed
/// integer `x`: five data bits per byte, already offset by 48, with
/// the continuation bit 0x20 set on every byte but the last.
pub open spec fn leb(x: int) -> Seq<u8>
    decreases (if x >= 0 {
        x
    } else {
        -1 - x
    }),
    via leb_decreases
{
    let low = x % 32;
    let rest = x / 32;
    if (low < 16 && rest == 0) || (low >= 16 && rest == -1) {
        seq![(low + 48) as u8]
    } else {
        seq![(low + 32 + 48) as u8] + leb(rest)
    }
}

#[via_fn]
proof fn leb_decreases(x: int) {
    lemma_euclid32(x);
}

/// The run-length deltas that are actually encoded: the first three
/// entries as they are, every later entry relative to the entry two
/// positions earlier.
pub open spec fn delta_seq(c: Seq<int>) -> Seq<int> {
    Seq::new(
        c.len(),
        |i: int|
            c[i] - if i > 2 {
                c[i - 2]
            } else {
                0
            },
    )
}

/// The concatenation of the byte encodings of a sequence of integers.
pub open spec fn encode_ints(d: Seq<int>) -> Seq<u8>
    decreases d.len(),
{
    if d.len() == 0 {
        Seq::empty()
    } else {
        leb(d[0]) + encode_ints(d.skip(1))
    }
}

/// The full byte encoding of a sequence of run lengths.
pub open spec fn encode_counts(c: Seq<int>) -> Seq<u8> {
    encode_ints(delta_seq(c))
}

/// Reads one variable-length integer from the front of `b`: its value
/// and how many bytes it took. `None` if `b` ends inside the integer
/// or the integer runs longer than `fuel` bytes.
pub open spec fn parse_one(b: Seq<u8>, fuel: nat) -> Option<(int, nat)>
    decreases fuel,
{
    if fuel == 0 || b.len() == 0 {
        None
    } else {
        let x = b[0] - 48;
        if x < 32 {
            if x >= 16 {
                Some((x - 32, 1nat))
            } else {
                Some((x, 1nat))
            }
        } else {
            match parse_one(b.skip(1), (fuel - 1) as nat) {
                Option::None => None,
                Option::Some((v, n)) => Some(((x - 32) + 32 * v, (n + 1) as nat)),
            }
        }
    }
}

/// A parsed integer takes at least one byte, at most `fuel` bytes and
/// at most the whole input.
pub proof fn lemma_parse_one_len(b: Seq<u8>, fuel: nat)
    ensures
        match parse_one(b, fuel) {
            Option::None => true,
            Option::Some((v, n)) => 1 <= n && n <= fuel && n <= b.len(),
        },
    decreases fuel,
{
    if fuel == 0 || b.len() == 0 {
    } else {
        let x = b[0] - 48;
        if x >= 32 {
            lemma_parse_one_len(b.skip(1), (fuel - 1) as nat);
        }
    }
}

/// Splits `b` into the integers it encodes, in order. `None` when
/// some integer is malformed (`parse_one` fails somewhere).
pub open spec fn parse_all(b: Seq<u8>) -> Option<Seq<int>>
    decreases b.len(),
    via parse_all_decreases
{
    if b.len() == 0 {
        Some(Seq::empty())
    } else {
        match parse_one(b, 7) {
            Option::None => None,
            Option::Some((v, n)) => match parse_all(b.skip(n as int)) {
                Option::None => None,
                Option::Some(rest) => Some(seq![v] + rest),
            },
        }
    }
}

#[via_fn]
proof fn parse_all_decreases(b: Seq<u8>) {
    lemma_parse_one_len(b, 7);
}

/// Rebuilds absolute run lengths from deltas: entries up to the third
/// stand for themselves, later ones add the rebuilt entry two
/// positions earlier.
pub open spec fn undelta(d: Seq<int>) -> Seq<int>
    decreases d.len(),
{
    if d.len() == 0 {
        Seq::empty()
    } else {
        let p = undelta(d.drop_last());
        p.push(
            d.last() + if d.len() - 1 > 2 {
                p[d.len() - 3]
            } else {
                0
            },
        )
    }
}

/// Drops every zero-valued run from the end of the sequence.
pub open spec fn trim_zeros(c: Seq<int>) -> Seq<int>
    decreases c.len(),
{
    if c.len() > 0 && c.last() == 0 {
        trim_zeros(c.drop_last())
    } else {
        c
    }
}

/// The bytes of an ASCII character sequence.
pub open spec fn ascii_bytes(s: Seq<char>) -> Seq<u8> {
    Seq::new(s.len(), |i: int| s[i] as u8)
}

/// What decoding an encoded-RLE byte string yields: `None` when the
/// string is rejected, otherwise the decoded run lengths with
/// trailing zero runs dropped.
pub open spec fn decoded_counts(b: Seq<u8>) -> Option<Seq<int>> {
    if !(forall|i: int| 0 <= i < b.len() ==> 48 <= #[trigger] b[i] < 112) {
        None
    } else {
        match parse_all(b) {
            Option::None => None,
            Option::Some(d) => {
                let c = undelta(d);
                if forall|i: int| 0 <= i < c.len() ==> 0 <= #[trigger] c[i] <= u32::MAX {
                    Some(trim_zeros(c))
                } else {
                    None
                }
            },
        }
    }
}

/// Rebuilding run lengths keeps one entry per delta.
pub proof fn lemma_undelta_len(d: Seq<int>)
    ensures
        undelta(d).len() == d.len(),
    decreases d.len(),
{
    if d.len() > 0 {
        lemma_undelta_len(d.drop_last());
    }
}

/// Rebuilding absolute run lengths looks only at the prefix: the
/// rebuilt prefix of a longer delta sequence is the rebuilt shorter
/// one.
pub proof fn lemma_undelta_prefix(d: Seq<int>, k: int)
    requires
        0 <= k <= d.len(),
    ensures
        undelta(d).take(k) == undelta(d.take(k)),
    decreases d.len() - k,
{
    lemma_undelta_len(d);
    if k == d.len() {
        assert(d.take(k) =~= d);
        assert(undelta(d).take(k) =~= undelta(d));
    } else {
        lemma_undelta_prefix(d, k + 1);
        let e = d.take(k + 1);
        lemma_undelta_len(e);
        assert(e.drop_last() =~= d.take(k));
        assert(undelta(e) == undelta(d.take(k)).push(
            e.last() + if e.len() - 1 > 2 {
                undelta(d.take(k))[e.len() - 3]
            } else {
                0
            },
        ));
        assert(undelta(d).take(k) =~= undelta(e).take(k));
        assert(undelta(e).take(k) =~= undelta(d.take(k)));
    }
}

/// Delta-coding then rebuilding gives the run lengths back.
pub proof fn lemma_undelta_delta(c: Seq<int>)
    ensures
        undelta(delta_seq(c)) == c,
    decreases c.len(),
{
    if c.len() == 0 {
        assert(undelta(delta_seq(c)) =~= c);
    } else {
        let d = delta_seq(c);
        lemma_undelta_delta(c.drop_last());
        assert(d.drop_last() =~= delta_seq(c.drop_last()));
        lemma_undelta_len(d.drop_last());
        assert(undelta(d) =~= c);
    }
}

/// A sequence whose last run is not zero is not trimmed.
pub proof fn lemma_trim_noop(c: Seq<int>)
    requires
        c.len() == 0 || c.last() != 0,
    ensures
        trim_zeros(c) == c,
{
}

/// Every byte of a variable-length integer lies in the ASCII range
/// 48-111.
pub proof fn lemma_leb_range(x: int)
    ensures
        leb(x).len() >= 1,
        forall|i: int| 0 <= i < leb(x).len() ==> 48 <= #[trigger] leb(x)[i] < 112,
    decreases (if x >= 0 {
        x
    } else {
        -1 - x
    }),
{
    lemma_euclid32(x);
    let low = x % 32;
    let rest = x / 32;
    if (low < 16 && rest == 0) || (low >= 16 && rest == -1) {
    } else {
        lemma_leb_range(rest);
        assert forall|i: int| 0 <= i < leb(x).len() implies 48 <= #[trigger] leb(x)[i] < 112 by {
            if i > 0 {
                assert(leb(x)[i] == leb(rest)[i - 1]);
            }
        }
    }
}

/// A value within `16 * pow32(k)` of zero takes at most `k + 1`
/// bytes.
pub proof fn lemma_leb_len(x: int, k: nat)
    requires
        -16 * pow32(k) <= x < 16 * pow32(k),
    ensures
        leb(x).len() <= k + 1,
    decreases k,
{
    lemma_euclid32(x);
    let low = x % 32;
    let rest = x / 32;
    if (low < 16 && rest == 0) || (low >= 16 && rest == -1) {
    } else {
        assert(k > 0) by {
            if k == 0 {
                assert(pow32(0) == 1);
                assert(-16 <= x < 16);
                if x >= 0 {
                    assert(rest == 0 && low < 16) by {
                        assert(x < 32);
                        assert(32 * rest == x - low);
                    }
                } else {
                    assert(rest == -1 && low >= 16) by {
                        assert(32 * rest == x - low);
                    }
                }
            }
        }
        assert(pow32(k) == 32 * pow32((k - 1) as nat));
        assert(-16 * pow32((k - 1) as nat) <= rest < 16 * pow32((k - 1) as nat)) by {
            assert(32 * rest == x - low);
        }
        lemma_leb_len(rest, (k - 1) as nat);
    }
}

/// Parsing reads back exactly the variable-length integer that was
/// written, leaving what follows.
pub proof fn lemma_parse_leb(x: int, rest_bytes: Seq<u8>, fuel: nat)
    requires
        leb(x).len() <= fuel,
    ensures
        parse_one(leb(x) + rest_bytes, fuel) == Some((x, leb(x).len() as nat)),
    decreases (if x >= 0 {
        x
    } else {
        -1 - x
    }),
{
    lemma_euclid32(x);
    lemma_leb_range(x);
    let low = x % 32;
    let rest = x / 32;
    let b = leb(x) + rest_bytes;
    if (low < 16 && rest == 0) || (low >= 16 && rest == -1) {
        assert(b[0] == (low + 48) as u8);
        if low < 16 {
            assert(x == low);
        } else {
            assert(x == low - 32);
        }
    } else {
        lemma_parse_leb(rest, rest_bytes, (fuel - 1) as nat);
        assert(b[0] == (low + 32 + 48) as u8);
        assert(b.skip(1) =~= leb(rest) + rest_bytes);
        let xx = b[0] - 48;
        assert(xx == low + 32);
        match parse_one(b.skip(1), (fuel - 1) as nat) {
            Option::None => {
                assert(false);
            }
            Option::Some((v, n)) => {
                assert(v == rest && n == leb(rest).len());
                assert((xx - 32) + 32 * v == x);
            }
        }
    }
}

/// Appending an integer appends its byte encoding.
pub proof fn lemma_encode_ints_snoc(d: Seq<int>, x: int)
    ensures
        encode_ints(d.push(x)) == encode_ints(d) + leb(x),
    decreases d.len(),
{
    if d.len() == 0 {
        assert(d.push(x)[0] == x);
        assert(d.push(x).skip(1) =~= Seq::<int>::empty());
        assert(encode_ints(d.push(x).skip(1)) =~= Seq::<u8>::empty());
        assert(encode_ints(d.push(x)) =~= encode_ints(d) + leb(x));
    } else {
        lemma_encode_ints_snoc(d.skip(1), x);
        assert(d.push(x).skip(1) =~= d.skip(1).push(x));
        assert(d.push(x)[0] == d[0]);
        assert(encode_ints(d.push(x)) == leb(d[0]) + (encode_ints(d.skip(1)) + leb(x)));
        assert(leb(d[0]) + (encode_ints(d.skip(1)) + leb(x)) =~= (leb(d[0]) + encode_ints(
            d.skip(1),
        )) + leb(x));
    }
}

/// Parsing splits the written concatenation back into the written
/// integers.
pub proof fn lemma_parse_all_encode(d: Seq<int>)
    requires
        forall|i: int| 0 <= i < d.len() ==> -16 * pow32(6) <= #[trigger] d[i] < 16 * pow32(6),
    ensures
        parse_all(encode_ints(d)) == Some(d),
    decreases d.len(),
{
    if d.len() == 0 {
        assert(encode_ints(d).len() == 0);
        assert(parse_all(encode_ints(d)) == Some(Seq::<int>::empty()));
        assert(Seq::<int>::empty() =~= d);
    } else {
        let b = encode_ints(d);
        let tail = encode_ints(d.skip(1));
        lemma_leb_len(d[0], 6);
        lemma_leb_range(d[0]);
        lemma_parse_leb(d[0], tail, 7);
        assert(b == leb(d[0]) + tail);
        assert forall|i: int| 0 <= i < d.skip(1).len() implies -16 * pow32(6) <= #[trigger] d.skip(
            1,
        )[i] < 16 * pow32(6) by {
            assert(d.skip(1)[i] == d[i + 1]);
        }
        lemma_parse_all_encode(d.skip(1));
        let n = leb(d[0]).len();
        assert(b.len() > 0) by {
            assert(leb(d[0]).len() >= 1);
        }
        assert(b.skip(n as int) =~= tail);
        assert(parse_all(b) == Some(seq![d[0]] + d.skip(1)));
        assert(seq![d[0]] + d.skip(1) =~= d);
    }
}

/// Powers of 32 up to the longest integer stay below `2^35`.
proof fn lemma_pow32_bounds(n: nat)
    requires
        n <= 7,
    ensures
        1 <= pow32(n) <= 34359738368,
        n <= 6 ==> pow32(n) <= 1073741824,
{
    assert(pow32(0) == 1);
    assert(pow32(1) == 32);
    assert(pow32(2) == 1024);
    assert(pow32(3) == 32768);
    assert(pow32(4) == 1048576);
    assert(pow32(5) == 33554432);
    assert(pow32(6) == 1073741824);
    assert(pow32(7) == 34359738368);
}

/// Relies on `String::from_utf8`: a byte string of ASCII bytes (all
/// below 128) is valid UTF-8 and decodes to one character per byte,
/// each character being the byte's code point.
#[verifier::external_body]
fn ascii_to_string(bytes: Vec<u8>) -> (r: String)
    requires
        forall|i: int| 0 <= i < bytes@.len() ==> bytes@[i] < 128,
    ensures
        r@.len() == bytes@.len(),
        forall|i: int| 0 <= i < bytes@.len() ==> (#[trigger] r@[i]) as u8 == bytes@[i],
        vstd::utf8::is_ascii_chars(r@),
{
    String::from_utf8(bytes).unwrap()
}

/// Converts an RLE into its compact ASCII form.
///
/// The result's bytes are exactly the variable-length encoding of the
/// delta-coded run lengths. Encoding cannot actually fail for 32-bit
/// run lengths, so the result is always `Ok`; the conversion error
/// variants exist to keep such failures reportable rather than fatal.
pub fn encode_rle(rle: &Rle) -> (r: Result<EncodedRle, MaskError>)
    ensures
        match r {
            Result::Ok(enc) => {
                &&& enc.size@ == rle.size@
                &&& ascii_bytes(enc.counts@) == encode_counts(ints(rle.counts@))
                &&& vstd::utf8::is_ascii_chars(enc.counts@)
            },
            Result::Err(_) => false,
        },
{
    let ghost c = ints(rle.counts@);
    let mut bytes: Vec<u8> = Vec::new();
    let mut i: usize = 0;
    proof {
        assert(delta_seq(c).take(0) =~= Seq::<int>::empty());
        assert(bytes@ =~= encode_ints(delta_seq(c).take(0)));
    }
    while i < rle.counts.len()
        invariant
            c == ints(rle.counts@),
            i <= rle.counts@.len(),
            bytes@ == encode_ints(delta_seq(c).take(i as int)),
            forall|p: int| 0 <= p < bytes@.len() ==> 48 <= #[trigger] bytes@[p] < 112,
        decreases rle.counts@.len() - i as int,
    {
        let cur_count: u32 = rle.counts[i];
        let d: i64 = if i > 2 {
            cur_count as i64 - (rle.counts[i - 2] as i64)
        } else {
            cur_count as i64
        };
        let ghost d_int = d as int;
        proof {
            assert(d_int == delta_seq(c)[i as int]);
        }
        let neg: bool = d < 0;
        let mut mag: u64 = if d < 0 {
            (-d) as u64
        } else {
            d as u64
        };
        let ghost mut cur = d as int;
        let ghost bytes_before = bytes@;
        let ghost mut emitted = Seq::<u8>::empty();
        proof {
            assert(bytes@ =~= bytes_before + emitted);
            assert(leb(d_int) =~= emitted + leb(cur));
        }
        loop
            invariant_except_break
                neg ==> mag >= 1,
                cur == if neg {
                    -(mag as int)
                } else {
                    mag as int
                },
                mag <= u32::MAX as u64,
                bytes@ == bytes_before + emitted,
                leb(d_int) == emitted + leb(cur),
            invariant
                forall|p: int| 0 <= p < bytes@.len() ==> 48 <= #[trigger] bytes@[p] < 112,
            ensures
                bytes@ == bytes_before + leb(d_int),
            decreases mag,
        {
            let low: u64 = if neg {
                (32 - (mag % 32)) % 32
            } else {
                mag % 32
            };
            let new_mag: u64 = if neg {
                (mag + 31) / 32
            } else {
                mag / 32
            };
            proof {
                let m = mag as int;
                lemma_euclid32(m);
                if neg {
                    if m % 32 == 0 {
                        vstd::arithmetic::div_mod::lemma_fundamental_div_mod_converse(
                            m + 31,
                            32,
                            m / 32,
                            31,
                        );
                        vstd::arithmetic::div_mod::lemma_fundamental_div_mod_converse(
                            cur,
                            32,
                            -(m / 32),
                            0,
                        );
                    } else {
                        vstd::arithmetic::div_mod::lemma_fundamental_div_mod_converse(
                            m + 31,
                            32,
                            m / 32 + 1,
                            m % 32 - 1,
                        );
                        vstd::arithmetic::div_mod::lemma_fundamental_div_mod_converse(
                            cur,
                            32,
                            -(m / 32 + 1),
                            32 - m % 32,
                        );
                    }
                }
                assert(low as int == cur % 32);
                assert(cur / 32 == if neg {
                    -(new_mag as int)
                } else {
                    new_mag as int
                });
            }
            let cont: bool = if low < 16 {
                if neg {
                    true
                } else {
                    new_mag != 0
                }
            } else {
                if neg {
                    new_mag != 1
                } else {
                    true
                }
            };
            proof {
                if neg {
                    assert(new_mag >= 1);
                }
                assert(cont == !((cur % 32 < 16 && cur / 32 == 0) || (cur % 32 >= 16 && cur / 32
                    == -1)));
            }
            let byte_val: u8 = (low as u8) + (if cont {
                32
            } else {
                0
            }) + 48;
            bytes.push(byte_val);
            proof {
                if cont {
                    assert(leb(cur) == seq![(cur % 32 + 32 + 48) as u8] + leb(cur / 32));
                    assert(byte_val == (cur % 32 + 32 + 48) as u8);
                    assert(leb(cur).skip(1) =~= leb(cur / 32));
                    assert((emitted + leb(cur)).skip(emitted.len() as int) =~= leb(cur));
                    emitted = emitted.push(byte_val);
                    assert(emitted + leb(cur / 32) =~= leb(d_int));
                } else {
                    assert(leb(cur) == seq![(cur % 32 + 48) as u8]);
                    assert(byte_val == (cur % 32 + 48) as u8);
                    emitted = emitted.push(byte_val);
                    assert(emitted =~= leb(d_int));
                }
                assert(bytes@ =~= bytes_before + emitted);
            }
            if !cont {
                break ;
            }
            mag = new_mag;
            proof {
                cur = cur / 32;
            }
        }
        proof {
            assert(bytes@ =~= bytes_before + leb(d_int));
            lemma_encode_ints_snoc(delta_seq(c).take(i as int), d_int);
            assert(delta_seq(c).take(i as int).push(d_int) =~= delta_seq(c).take(i as int + 1));
        }
        i = i + 1;
    }
    proof {
        assert(delta_seq(c).take(rle.counts@.len() as int) =~= delta_seq(c));
    }
    let counts_str = ascii_to_string(bytes);
    let enc = EncodedRle { size: crate::coco::clone_u32_vec(&rle.size), counts: counts_str };
    proof {
        assert(ascii_bytes(enc.counts@) =~= encode_counts(ints(rle.counts@)));
    }
    Ok(enc)
}

/// Converts a compact ASCII form back into the RLE it encodes.
///
/// Returns `Ok` exactly when the string is ASCII and its bytes decode:
/// every byte in the range 48-111, every integer complete and at most
/// seven bytes long, and every reconstructed run length a 32-bit
/// count. The result's run lengths are the decoded ones, with
/// trailing zero-valued runs dropped.
#[verifier::loop_isolation(false)]
pub fn decode_rle(enc: &EncodedRle) -> (r: Result<Rle, MaskError>)
    ensures
        match r {
            Result::Ok(rle) => {
                &&& vstd::utf8::is_ascii_chars(enc.counts@)
                &&& decoded_counts(ascii_bytes(enc.counts@)) == Some(ints(rle.counts@))
                &&& rle.size@ == enc.size@
            },
            Result::Err(e) => {
                &&& !(vstd::utf8::is_ascii_chars(enc.counts@) && decoded_counts(
                    ascii_bytes(enc.counts@),
                ) is Some)
                &&& e is InvalidEncodedRle
            },
        },
{
    if !enc.counts.is_ascii() {
        return Err(MaskError::InvalidEncodedRle(enc.counts.clone()));
    }
    let bytes: Vec<u8> = enc.counts.as_str().as_bytes_vec();
    proof {
        vstd::utf8::is_ascii_chars_encode_utf8(enc.counts@);
        assert(bytes@ =~= ascii_bytes(enc.counts@));
    }
    let ghost b = ascii_bytes(enc.counts@);
    let mut i: usize = 0;
    while i < bytes.len()
        invariant
            i <= b.len(),
            forall|p: int| 0 <= p < i as int ==> 48 <= #[trigger] b[p] < 112,
        decreases b.len() - i as int,
    {
        let by = bytes[i];
        if by < 48 || by >= 112 {
            return Err(MaskError::InvalidEncodedRle(enc.counts.clone()));
        }
        i = i + 1;
    }
    let mut counts: Vec<u32> = Vec::new();
    let ghost mut ds = Seq::<int>::empty();
    i = 0;
    proof {
        assert(b.skip(0) == b);
        assert(ints(counts@) =~= undelta(ds));
    }
    while i < bytes.len()
        invariant
            i <= b.len(),
            ds.len() == counts@.len(),
            ints(counts@) == undelta(ds),
            match parse_all(b.skip(i as int)) {
                Option::Some(rest) => parse_all(b) == Some(ds + rest),
                Option::None => parse_all(b) is None,
            },
        decreases b.len() - i as int,
    {
        let ghost t = b.skip(i as int);
        let mut nb: usize = 0;
        let mut v_acc: i64 = 0;
        let mut pow: i64 = 1;
        let mut term_val: i64 = 0;
        let mut failed: bool = false;
        let mut done: bool = false;
        proof {
            assert(pow32(0) == 1);
            assert(t.skip(0) == t);
        }
        while !done
            invariant
                failed ==> done,
                !done ==> {
                    &&& nb <= 7
                    &&& i as int + nb as int <= b.len()
                    &&& pow == pow32(nb as nat)
                    &&& 1 <= pow <= 34359738368
                    &&& 0 <= v_acc < pow
                    &&& match parse_one(t.skip(nb as int), (7 - nb) as nat) {
                        Option::Some((v, n)) => parse_one(t, 7) == Some(
                            (v_acc + pow * v, (nb + n) as nat),
                        ),
                        Option::None => parse_one(t, 7) is None,
                    }
                },
                done && failed ==> parse_one(t, 7) is None,
                done && !failed ==> 1 <= nb <= 7 && i as int + nb as int <= b.len() && parse_one(
                    t,
                    7,
                ) == Some((term_val as int, nb as nat)) && -34359738368 <= term_val <= 34359738368,
            decreases (if done {
                0int
            } else {
                1int
            }), 7 - nb as int,
        {
            if nb == 7 || i + nb == bytes.len() {
                proof {
                    if nb == 7 {
                        assert(parse_one(t.skip(7), 0nat) is None);
                    } else {
                        assert(t.skip(nb as int).len() == 0);
                        assert(parse_one(t.skip(nb as int), (7 - nb) as nat) is None);
                    }
                }
                failed = true;
                done = true;
                continue ;
            }
            let x_b: u8 = bytes[i + nb];
            let x: i64 = (x_b as i64) - 48;
            proof {
                lemma_pow32_bounds(nb as nat);
                assert(t.skip(nb as int)[0] == b[i as int + nb as int]);
                assert(48 <= b[i as int + nb as int] < 112);
                assert(0 <= x < 64);
            }
            if x < 32 {
                let sv: i64 = if x >= 16 {
                    x - 32
                } else {
                    x
                };
                proof {
                    assert(parse_one(t.skip(nb as int), (7 - nb) as nat) == Some(
                        (sv as int, 1nat),
                    ));
                    assert((-32) * pow <= pow * sv <= 31 * pow) by (nonlinear_arith)
                        requires
                            pow >= 1,
                            -32 <= sv <= 31,
                    ;
                }
                term_val = v_acc + pow * sv;
                nb = nb + 1;
                done = true;
                continue ;
            }
            proof {
                lemma_parse_one_len(t.skip(nb as int + 1), (7 - nb - 1) as nat);
                assert(t.skip(nb as int).skip(1) =~= t.skip(nb as int + 1));
                assert(0 <= (x - 32) * pow <= 31 * pow) by (nonlinear_arith)
                    requires
                        pow >= 1,
                        0 <= x - 32 <= 31,
                ;
                assert(pow * (x - 32) == (x - 32) * pow) by (nonlinear_arith);
                assert(31 * pow <= 31 * 1073741824);
                match parse_one(t.skip(nb as int + 1), (7 - nb - 1) as nat) {
                    Option::None => {
                        assert(parse_one(t.skip(nb as int), (7 - nb) as nat) is None);
                    }
                    Option::Some((v2, n2)) => {
                        assert(parse_one(t.skip(nb as int), (7 - nb) as nat) == Some(
                            ((x - 32) + 32 * v2, (n2 + 1) as nat),
                        ));
                        assert(v_acc + pow * ((x - 32) + 32 * v2) == (v_acc + pow * (x - 32)) + (32
                            * pow) * v2) by (nonlinear_arith);
                        assert(pow32((nb + 1) as nat) == 32 * pow32(nb as nat));
                        assert(v_acc + pow * (x - 32) < 32 * pow) by (nonlinear_arith)
                            requires
                                v_acc < pow,
                                x - 32 <= 31,
                                pow >= 1,
                        ;
                    }
                }
            }
            v_acc = v_acc + pow * (x - 32);
            pow = pow * 32;
            nb = nb + 1;
        }
        if failed {
            proof {
                assert(parse_all(b.skip(i as int)) is None);
            }
            return Err(MaskError::InvalidEncodedRle(enc.counts.clone()));
        }
        let idx = counts.len();
        let mut v_final: i64 = term_val;
        if idx > 2 {
            v_final = v_final + (counts[idx - 2] as i64);
        }
        let ghost ds2 = ds.push(term_val as int);
        proof {
            assert(ds2.drop_last() =~= ds);
            lemma_undelta_len(ds);
            assert(undelta(ds2) == undelta(ds).push(
                ds2.last() + if ds2.len() - 1 > 2 {
                    undelta(ds)[ds2.len() - 3]
                } else {
                    0
                },
            ));
            assert(undelta(ds2).last() == v_final as int);
            assert(b.skip(i as int).skip(nb as int) =~= b.skip(i as int + nb as int));
        }
        if v_final < 0 || v_final > 0xFFFF_FFFFi64 {
            proof {
                match parse_all(b.skip(i as int + nb as int)) {
                    Option::None => {
                        assert(parse_all(b.skip(i as int)) is None);
                    }
                    Option::Some(rest) => {
                        assert(parse_all(b.skip(i as int)) == Some(seq![term_val as int] + rest));
                        assert(ds + (seq![term_val as int] + rest) =~= ds2 + rest);
                        assert(parse_all(b) == Some(ds2 + rest));
                        let full = ds2 + rest;
                        lemma_undelta_prefix(full, ds2.len() as int);
                        assert(full.take(ds2.len() as int) =~= ds2);
                        lemma_undelta_len(full);
                        lemma_undelta_len(ds2);
                        assert(undelta(full)[ds2.len() - 1] == undelta(ds2).last());
                        assert(!(forall|q: int|
                            0 <= q < undelta(full).len() ==> 0 <= #[trigger] undelta(full)[q]
                                <= u32::MAX));
                    }
                }
            }
            return Err(MaskError::InvalidEncodedRle(enc.counts.clone()));
        }
        counts.push(v_final as u32);
        proof {
            ds = ds2;
            assert(ints(counts@) =~= undelta(ds));
            match parse_all(b.skip(i as int + nb as int)) {
                Option::None => {
                    assert(parse_all(b.skip(i as int)) is None);
                }
                Option::Some(rest) => {
                    assert(parse_all(b.skip(i as int)) == Some(seq![term_val as int] + rest));
                    assert(ds.drop_last() + (seq![term_val as int] + rest) =~= ds + rest);
                }
            }
        }
        i = i + nb;
    }
    proof {
        assert(b.skip(b.len() as int) =~= Seq::<u8>::empty());
        assert(parse_all(b.skip(i as int)) == Some(Seq::<int>::empty()));
        assert(ds + Seq::<int>::empty() =~= ds);
        assert(parse_all(b) == Some(ds));
    }
    let ghost c_full = ints(counts@);
    while counts.len() > 0 && counts[counts.len() - 1] == 0
        invariant
            trim_zeros(ints(counts@)) == trim_zeros(c_full),
        decreases counts@.len(),
    {
        let ghost before = counts@;
        counts.pop();
        proof {
            assert(counts@ =~= before.drop_last());
            assert(ints(counts@) =~= ints(before).drop_last());
            assert(ints(before).last() == 0);
            assert(trim_zeros(ints(before)) == trim_zeros(ints(counts@)));
        }
    }
    proof {
        if counts@.len() > 0 {
            assert(ints(counts@).last() == counts@.last() as int);
        }
        lemma_trim_noop(ints(counts@));
        assert forall|q: int| 0 <= q < undelta(ds).len() implies 0 <= #[trigger] undelta(ds)[q]
            <= u32::MAX by {
            assert(undelta(ds)[q] == c_full[q]);
        }
        assert(decoded_counts(b) == Some(ints(counts@)));
    }
    let size = crate::coco::clone_u32_vec(&enc.size);
    Ok(Rle { size, counts })
}

/// Every byte of an encoded integer sequence lies in the ASCII range
/// 48-111.
pub proof fn lemma_encode_ints_range(d: Seq<int>)
    ensures
        forall|p: int|
            0 <= p < encode_ints(d).len() ==> 48 <= #[trigger] encode_ints(d)[p] < 112,
    decreases d.len(),
{
    if d.len() > 0 {
        lemma_leb_range(d[0]);
        lemma_encode_ints_range(d.skip(1));
        assert forall|p: int|
            0 <= p < encode_ints(d).len() implies 48 <= #[trigger] encode_ints(d)[p] < 112 by {
            if p < leb(d[0]).len() {
                assert(encode_ints(d)[p] == leb(d[0])[p]);
            } else {
                assert(encode_ints(d)[p] == encode_ints(d.skip(1))[p - leb(d[0]).len()]);
            }
        }
    }
}

/// Round trip: encoding a run-length sequence and decoding the bytes
/// gives the run lengths back, for any sequence of 32-bit run lengths
/// whose last run is not empty (as holds of every sequence produced
/// from a mask). This covers negative deltas, which take the
/// sign-extension byte path.
pub proof fn lemma_encode_decode_round_trip(c: Seq<int>)
    requires
        forall|i: int| 0 <= i < c.len() ==> 0 <= #[trigger] c[i] <= u32::MAX,
        c.len() > 0 ==> c.last() != 0,
    ensures
        decoded_counts(encode_counts(c)) == Some(c),
{
    let d = delta_seq(c);
    let b = encode_counts(c);
    assert(pow32(0) == 1);
    assert(pow32(1) == 32);
    assert(pow32(2) == 1024);
    assert(pow32(3) == 32768);
    assert(pow32(4) == 1048576);
    assert(pow32(5) == 33554432);
    assert(pow32(6) == 1073741824);
    assert forall|i: int| 0 <= i < d.len() implies -16 * pow32(6) <= #[trigger] d[i] < 16 * pow32(
        6,
    ) by {
        assert(d[i] == c[i] - if i > 2 {
            c[i - 2]
        } else {
            0
        });
        assert(0 <= c[i] <= u32::MAX);
        if i > 2 {
            assert(0 <= c[i - 2] <= u32::MAX);
        }
    }
    lemma_parse_all_encode(d);
    lemma_undelta_delta(c);
    lemma_trim_noop(c);
    lemma_encode_ints_range(d);
    assert(parse_all(b) == Some(d));
    assert(decoded_counts(b) == Some(c));
}

} // verus!
