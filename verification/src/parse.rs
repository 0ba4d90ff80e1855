//! Decoding of the persisted JSON documents. A parse accepts exactly the
//! canonical form the encoders in [`crate::json`] emit, and its contract is
//! an exact characterization: a canonical encoding always parses back to
//! the encoded value, and a successful parse proves the input is that
//! value's encoding (a candidate is read off the bytes and checked by
//! re-encoding). Anything else — malformed bytes, foreign formattings,
//! trailing garbage — comes back as `None` for the caller's fallback path,
//! never as a failure.

use vstd::prelude::*;

use crate::json::{
    dec_digits, escape_byte, escaped, hex_digit, json_link, json_links, json_links_body, lemma_escaped_add,
    json_string, json_user, key_avatar, key_bio, key_id, key_links, key_name, key_title, key_url,
    key_user, lemma_dec_digits_are_digits, lemma_escaped_split, links_json, user_json,
};
use crate::state::{LinkV, UserV};
use crate::state::{Link, User};

verus! {

/// `t` occupies the bytes of `b` starting exactly at position `i`.
pub open spec fn starts_at(b: Seq<u8>, i: int, t: Seq<u8>) -> bool {
    &&& 0 <= i
    &&& i + t.len() <= b.len()
    &&& b.subrange(i, i + t.len()) == t
}

proof fn lemma_starts_at_concat(b: Seq<u8>, i: int, x: Seq<u8>, y: Seq<u8>)
    requires
        starts_at(b, i, x + y),
    ensures
        starts_at(b, i, x),
        starts_at(b, i + x.len(), y),
{
    assert forall|m: int| 0 <= m < (x + y).len() implies b[i + m] == #[trigger] (x + y)[m] by {
        assert(b.subrange(i, i + (x + y).len())[m] == b[i + m]);
    }
    assert forall|m: int| 0 <= m < x.len() implies #[trigger] b.subrange(i, i + x.len())[m]
        == x[m] by {
        assert((x + y)[m] == x[m]);
        assert(b[i + m] == (x + y)[m]);
    }
    assert(b.subrange(i, i + x.len()) =~= x);
    assert forall|m: int|
        0 <= m < y.len() implies #[trigger] b.subrange(i + x.len(), i + x.len() + y.len())[m]
        == y[m] by {
        assert((x + y)[x.len() + m] == y[m]);
        assert(b[i + x.len() + m] == (x + y)[x.len() + m]);
    }
    assert(b.subrange(i + x.len(), i + x.len() + y.len()) =~= y);
}

proof fn lemma_starts_at_byte(b: Seq<u8>, i: int, t: Seq<u8>, m: int)
    requires
        starts_at(b, i, t),
        0 <= m < t.len(),
    ensures
        b[i + m] == t[m],
{
    assert(b.subrange(i, i + t.len())[m] == b[i + m]);
}

proof fn lemma_starts_at_join(b: Seq<u8>, i: int, x: Seq<u8>, y: Seq<u8>)
    requires
        starts_at(b, i, x),
        starts_at(b, i + x.len(), y),
    ensures
        starts_at(b, i, x + y),
{
    assert forall|m: int| 0 <= m < (x + y).len() implies #[trigger] b.subrange(
        i,
        i + (x + y).len(),
    )[m] == (x + y)[m] by {
        if m < x.len() {
            assert(b.subrange(i, i + x.len())[m] == x[m]);
        } else {
            assert(b.subrange(i + x.len(), i + x.len() + y.len())[m - x.len()] == y[m
                - x.len()]);
        }
    }
    assert(b.subrange(i, i + (x + y).len()) =~= x + y);
}

spec fn pow10(k: nat) -> nat
    decreases k,
{
    if k == 0 {
        1
    } else {
        10 * pow10((k - 1) as nat)
    }
}

proof fn lemma_pow10_pos(k: nat)
    ensures
        pow10(k) >= 1,
    decreases k,
{
    if k > 0 {
        lemma_pow10_pos((k - 1) as nat);
    }
}

/// The first `t` digits of `m`'s rendering render `m` with its last
/// `len - t` digits divided away.
proof fn lemma_dec_split(m: nat, t: int)
    requires
        1 <= t <= dec_digits(m).len(),
    ensures
        dec_digits(m).take(t) == dec_digits(m / pow10((dec_digits(m).len() - t) as nat)),
        m / pow10((dec_digits(m).len() - t) as nat) <= m,
    decreases dec_digits(m).len() - t,
{
    let len = dec_digits(m).len();
    lemma_pow10_pos((len - t) as nat);
    if t == len {
        assert(dec_digits(m).take(t) =~= dec_digits(m));
        assert(m / pow10(0) == m);
    } else {
        lemma_dec_digits_are_digits(m);
        if m < 10 {
            assert(len == 1);
            assert(false);
        }
        let q = m / 10;
        lemma_dec_digits_are_digits(q);
        assert(dec_digits(m) == dec_digits(q) + seq![(0x30 + m % 10) as u8]);
        assert(dec_digits(m).take(t) =~= dec_digits(q).take(t));
        lemma_dec_split(q, t);
        let k = (len - 1 - t) as nat;
        assert(dec_digits(q).len() == len - 1);
        vstd::arithmetic::div_mod::lemma_div_denominator(m as int, 10, pow10(k) as int);
        assert(pow10((k + 1) as nat) == 10 * pow10(k));
        assert(q / pow10(k) == m / pow10((len - t) as nat));
        vstd::arithmetic::div_mod::lemma_div_nonincreasing(m as int, pow10(
            (len - t) as nat,
        ) as int);
    }
}

/// A maximal decimal rendering of `m` sits at position `i` of `b`: its
/// digits are there and no further digit follows them.
pub open spec fn decimal_at(b: Seq<u8>, i: int, m: nat) -> bool {
    &&& starts_at(b, i, dec_digits(m))
    &&& (i + dec_digits(m).len() == b.len() || !(0x30 <= b[i + dec_digits(m).len()] <= 0x39))
}

proof fn lemma_dec_single(q: nat)
    requires
        q < 10,
    ensures
        dec_digits(q).len() == 1,
        dec_digits(q)[0] == (0x30 + q) as u8,
        ((0x30 + q) as u8) as int == 0x30 + q,
{
    assert(dec_digits(q) =~= seq![(0x30 + q) as u8]);
    assert(0x30 + q < 256);
}

proof fn lemma_digit_value(v: nat, x: u8, d: nat)
    requires
        v < 10,
        x == (0x30 + v) as u8,
        d == x - 0x30,
    ensures
        d == v,
{
    assert(0x30 + v < 256);
}

fn bytes_eq(a: &Vec<u8>, b: &Vec<u8>) -> (r: bool)
    ensures
        r == (a@ == b@),
{
    if a.len() != b.len() {
        return false;
    }
    let mut i: usize = 0;
    while i < a.len()
        invariant
            i <= a.len(),
            a@.len() == b@.len(),
            forall|j: int| 0 <= j < i ==> a@[j] == b@[j],
        decreases a.len() - i,
    {
        if a[i] != b[i] {
            return false;
        }
        i = i + 1;
    }
    proof {
        assert(a@ =~= b@);
    }
    true
}

/// The position after `tok` when the bytes at `i` start with `tok`, and
/// `None` exactly when they do not.
fn expect(b: &Vec<u8>, i: usize, tok: &[u8]) -> (r: Option<usize>)
    ensures
        match r {
            Option::Some(j) => i + tok@.len() == j && j <= b@.len(),
            Option::None => !starts_at(b@, i as int, tok@),
        },
{
    if tok.len() > b.len() || i > b.len() - tok.len() {
        return Option::None;
    }
    let mut k: usize = 0;
    while k < tok.len()
        invariant
            k <= tok@.len(),
            i + tok@.len() <= b@.len(),
            b@.len() <= usize::MAX,
        decreases tok@.len() - k,
    {
        if b[i + k] != tok[k] {
            proof {
                if starts_at(b@, i as int, tok@) {
                    lemma_starts_at_byte(b@, i as int, tok@, k as int);
                }
            }
            return Option::None;
        }
        k = k + 1;
    }
    Option::Some(i + tok.len())
}

fn hex_val(c: u8) -> (r: Option<u8>)
    ensures
        match r {
            Option::Some(v) => v < 16 && c == hex_digit(v),
            Option::None => !(0x30 <= c <= 0x39 || 0x61 <= c <= 0x66),
        },
{
    if 0x30 <= c && c <= 0x39 {
        Option::Some(c - 0x30)
    } else if 0x61 <= c && c <= 0x66 {
        Option::Some(c - 0x57)
    } else {
        Option::None
    }
}

proof fn lemma_escape_shape(x: u8)
    ensures
        1 <= escape_byte(x).len() <= 6,
        escape_byte(x)[0] != 0x22,
        x == 0x22 ==> escape_byte(x) == seq![0x5cu8, 0x22u8],
        x == 0x5c ==> escape_byte(x) == seq![0x5cu8, 0x5cu8],
        x < 0x20 ==> escape_byte(x) == seq![
            0x5cu8,
            0x75u8,
            0x30u8,
            0x30u8,
            hex_digit(x / 16),
            hex_digit(x % 16),
        ],
        !(x == 0x22 || x == 0x5c || x < 0x20) ==> escape_byte(x) == seq![x],
        (escape_byte(x)[0] == 0x5c) == (x == 0x22 || x == 0x5c || x < 0x20),
{
}

proof fn lemma_string_layout(b: Seq<u8>, i: int, s: Seq<u8>)
    requires
        starts_at(b, i, json_string(s)),
    ensures
        b[i] == 0x22,
        i + 2 + escaped(s).len() <= b.len(),
        0 <= i,
        starts_at(b, i + 1, escaped(s)),
        b[i + 1 + escaped(s).len()] == 0x22,
        json_string(s).len() == escaped(s).len() + 2,
{
    lemma_starts_at_concat(b, i, seq![0x22u8] + escaped(s), seq![0x22u8]);
    lemma_starts_at_concat(b, i, seq![0x22u8], escaped(s));
    lemma_starts_at_byte(b, i, seq![0x22u8], 0);
    lemma_starts_at_byte(b, i + 1 + escaped(s).len(), seq![0x22u8], 0);
}

/// Under a canonical string literal at `i`, the scanner position after `k`
/// decoded bytes sits either at the closing quote or at the escape of the
/// next byte.
proof fn lemma_string_state(b: Seq<u8>, i: int, s: Seq<u8>, k: int, j: int)
    requires
        starts_at(b, i, json_string(s)),
        0 <= k <= s.len(),
        j == i + 1 + escaped(s.take(k)).len(),
    ensures
        i < j <= i + 1 + escaped(s).len(),
        i + 2 + escaped(s).len() <= b.len(),
        k == s.len() ==> j == i + 1 + escaped(s).len() && b[j] == 0x22,
        k < s.len() ==> starts_at(b, j, escape_byte(s[k])) && j + escape_byte(s[k]).len() <= i
            + 1 + escaped(s).len() && escaped(s.take(k + 1)).len() == escaped(s.take(k)).len()
            + escape_byte(s[k]).len(),
{
    lemma_string_layout(b, i, s);
    assert(s =~= s.take(k) + s.skip(k));
    lemma_escaped_add(s.take(k), s.skip(k));
    if k == s.len() {
        assert(s.take(k) =~= s);
    } else {
        lemma_escaped_split(s, k);
        assert(escaped(s) == escaped(s.take(k)) + escape_byte(s[k]) + escaped(s.skip(k + 1)));
        lemma_starts_at_concat(
            b,
            i + 1,
            escaped(s.take(k)) + escape_byte(s[k]),
            escaped(s.skip(k + 1)),
        );
        lemma_starts_at_concat(b, i + 1, escaped(s.take(k)), escape_byte(s[k]));
    }
}

/// Read a JSON string literal starting at `i`: the unescaped bytes and the
/// position after the closing quote. A canonical literal is always read
/// back as exactly the bytes it encodes.
fn scan_string(b: &Vec<u8>, i: usize) -> (r: Option<(Vec<u8>, usize)>)
    ensures
        match r {
            Option::Some(p) => i < p.1 <= b@.len(),
            Option::None => true,
        },
        forall|s: Seq<u8>|
            #[trigger] starts_at(b@, i as int, json_string(s)) ==> r is Some && r.unwrap().0@
                == s && r.unwrap().1 == i + json_string(s).len(),
{
    if i >= b.len() || b[i] != 0x22 {
        proof {
            assert forall|s: Seq<u8>| #[trigger] starts_at(
                b@,
                i as int,
                json_string(s),
            ) implies false by {
                lemma_string_layout(b@, i as int, s);
            }
        }
        return Option::None;
    }
    let mut out: Vec<u8> = Vec::new();
    let mut j: usize = i + 1;
    proof {
        assert forall|s: Seq<u8>| #[trigger] starts_at(
            b@,
            i as int,
            json_string(s),
        ) implies out@.len() <= s.len() && out@ == s.take(out@.len() as int) && j == i + 1
            + escaped(s.take(out@.len() as int)).len() by {
            assert(s.take(0) =~= Seq::<u8>::empty());
            assert(out@ =~= s.take(0));
            assert(escaped(s.take(0)).len() == 0);
        }
    }
    while j < b.len()
        invariant
            i < j <= b@.len(),
            forall|s: Seq<u8>|
                #[trigger] starts_at(b@, i as int, json_string(s)) ==> out@.len() <= s.len()
                    && out@ == s.take(out@.len() as int) && j == i + 1 + escaped(
                    s.take(out@.len() as int),
                ).len(),
        decreases b@.len() - j,
    {
        let c = b[j];
        let ghost out_before = out@;
        let ghost j_before = j as int;
        if c == 0x22 {
            proof {
                assert forall|s: Seq<u8>| #[trigger] starts_at(
                    b@,
                    i as int,
                    json_string(s),
                ) implies out@ == s && j + 1 == i + json_string(s).len() by {
                    let k = out@.len() as int;
                    lemma_string_state(b@, i as int, s, k, j as int);
                    if k < s.len() {
                        lemma_escape_shape(s[k]);
                        lemma_starts_at_byte(b@, j as int, escape_byte(s[k]), 0);
                        assert(false);
                    }
                    assert(out@ =~= s);
                    lemma_string_layout(b@, i as int, s);
                }
            }
            return Option::Some((out, j + 1));
        }
        if c == 0x5c {
            proof {
                assert forall|s: Seq<u8>| #[trigger] starts_at(
                    b@,
                    i as int,
                    json_string(s),
                ) implies ({
                    let k = out@.len() as int;
                    &&& k < s.len()
                    &&& (s[k] == 0x22 || s[k] == 0x5c || s[k] < 0x20)
                    &&& starts_at(b@, j as int, escape_byte(s[k]))
                    &&& j + escape_byte(s[k]).len() <= b@.len() - 1
                    &&& escaped(s.take(k + 1)).len() == escaped(s.take(k)).len() + escape_byte(
                        s[k],
                    ).len()
                }) by {
                    let k = out@.len() as int;
                    lemma_string_state(b@, i as int, s, k, j as int);
                    if k == s.len() {
                        assert(b@[j as int] == 0x22);
                        assert(false);
                    }
                    lemma_escape_shape(s[k]);
                    lemma_starts_at_byte(b@, j as int, escape_byte(s[k]), 0);
                }
            }
            if j + 1 >= b.len() {
                proof {
                    assert forall|s: Seq<u8>| #[trigger] starts_at(
                        b@,
                        i as int,
                        json_string(s),
                    ) implies false by {
                        let k = out@.len() as int;
                        lemma_escape_shape(s[k]);
                    }
                }
                return Option::None;
            }
            let e = b[j + 1];
            proof {
                assert forall|s: Seq<u8>| #[trigger] starts_at(
                    b@,
                    i as int,
                    json_string(s),
                ) implies b@[j + 1] == escape_byte(s[out@.len() as int])[1] by {
                    let k = out@.len() as int;
                    lemma_escape_shape(s[k]);
                    lemma_starts_at_byte(b@, j as int, escape_byte(s[k]), 1);
                }
            }
            if e == 0x22 || e == 0x5c {
                out.push(e);
                j = j + 2;
                proof {
                    assert forall|s: Seq<u8>| #[trigger] starts_at(
                        b@,
                        i as int,
                        json_string(s),
                    ) implies out@.len() <= s.len() && out@ == s.take(out@.len() as int) && j
                        == i + 1 + escaped(s.take(out@.len() as int)).len() by {
                        let k = out_before.len() as int;
                        lemma_escape_shape(s[k]);
                        assert(s[k] == e);
                        assert(escape_byte(s[k]).len() == 2);
                        assert(s.take(k + 1) =~= s.take(k).push(s[k]));
                        assert(out@ =~= s.take(k + 1));
                    }
                }
            } else if e == 0x75 {
                proof {
                    assert forall|s: Seq<u8>| #[trigger] starts_at(
                        b@,
                        i as int,
                        json_string(s),
                    ) implies ({
                        let k = out@.len() as int;
                        &&& s[k] < 0x20
                        &&& escape_byte(s[k]).len() == 6
                        &&& b@[j + 2] == 0x30 && b@[j + 3] == 0x30
                        &&& b@[j + 4] == hex_digit(s[k] / 16) && b@[j + 5] == hex_digit(
                            s[k] % 16,
                        )
                        &&& j + 6 <= b@.len()
                    }) by {
                        let k = out@.len() as int;
                        lemma_escape_shape(s[k]);
                        lemma_starts_at_byte(b@, j as int, escape_byte(s[k]), 2);
                        lemma_starts_at_byte(b@, j as int, escape_byte(s[k]), 3);
                        lemma_starts_at_byte(b@, j as int, escape_byte(s[k]), 4);
                        lemma_starts_at_byte(b@, j as int, escape_byte(s[k]), 5);
                    }
                }
                if b.len() - j <= 5 {
                    return Option::None;
                }
                if b[j + 2] != 0x30 || b[j + 3] != 0x30 {
                    return Option::None;
                }
                let hi = match hex_val(b[j + 4]) {
                    Option::Some(v) => v,
                    Option::None => {
                        proof {
                            assert forall|s: Seq<u8>| #[trigger] starts_at(
                                b@,
                                i as int,
                                json_string(s),
                            ) implies false by {
                                let k = out@.len() as int;
                                lemma_hex_of_nibble(s[k] / 16);
                            }
                        }
                        return Option::None;
                    },
                };
                let lo = match hex_val(b[j + 5]) {
                    Option::Some(v) => v,
                    Option::None => {
                        proof {
                            assert forall|s: Seq<u8>| #[trigger] starts_at(
                                b@,
                                i as int,
                                json_string(s),
                            ) implies false by {
                                let k = out@.len() as int;
                                lemma_hex_of_nibble(s[k] % 16);
                            }
                        }
                        return Option::None;
                    },
                };
                out.push(hi * 16 + lo);
                j = j + 6;
                proof {
                    assert forall|s: Seq<u8>| #[trigger] starts_at(
                        b@,
                        i as int,
                        json_string(s),
                    ) implies out@.len() <= s.len() && out@ == s.take(out@.len() as int) && j
                        == i + 1 + escaped(s.take(out@.len() as int)).len() by {
                        let k = out_before.len() as int;
                        lemma_hex_injective(s[k] / 16, hi as nat);
                        lemma_hex_injective(s[k] % 16, lo as nat);
                        assert(hi == s[k] / 16 && lo == s[k] % 16);
                        assert(hi * 16 + lo == s[k]);
                        assert(s.take(k + 1) =~= s.take(k).push(s[k]));
                        assert(out@ =~= s.take(k + 1));
                    }
                }
            } else {
                proof {
                    assert forall|s: Seq<u8>| #[trigger] starts_at(
                        b@,
                        i as int,
                        json_string(s),
                    ) implies false by {
                        let k = out@.len() as int;
                        lemma_escape_shape(s[k]);
                    }
                }
                return Option::None;
            }
        } else {
            out.push(c);
            j = j + 1;
            proof {
                assert forall|s: Seq<u8>| #[trigger] starts_at(
                    b@,
                    i as int,
                    json_string(s),
                ) implies out@.len() <= s.len() && out@ == s.take(out@.len() as int) && j == i
                    + 1 + escaped(s.take(out@.len() as int)).len() by {
                    let k = out_before.len() as int;
                    lemma_string_state(b@, i as int, s, k, j_before);
                    if k == s.len() {
                        assert(b@[j_before] == 0x22);
                        assert(false);
                    }
                    lemma_escape_shape(s[k]);
                    lemma_starts_at_byte(b@, j_before, escape_byte(s[k]), 0);
                    assert(escape_byte(s[k])[0] == c);
                    assert(escape_byte(s[k]) == seq![s[k]]);
                    assert(s[k] == c);
                    assert(s.take(k + 1) =~= s.take(k).push(s[k]));
                    assert(out@ =~= s.take(k + 1));
                }
            }
        }
    }
    proof {
        assert forall|s: Seq<u8>| #[trigger] starts_at(
            b@,
            i as int,
            json_string(s),
        ) implies false by {
            let k = out@.len() as int;
            lemma_string_state(b@, i as int, s, k, j as int);
        }
    }
    Option::None
}

proof fn lemma_hex_of_nibble(v: u8)
    requires
        v < 16,
    ensures
        0x30 <= hex_digit(v) <= 0x39 || 0x61 <= hex_digit(v) <= 0x66,
{
}

proof fn lemma_hex_injective(u: u8, v: nat)
    requires
        u < 16,
        v < 16,
        hex_digit(u) == hex_digit(v as u8),
    ensures
        v == u,
{
}

/// When the byte after `j` positions is no longer a digit, the whole
/// rendering has been read.
proof fn lemma_dec_done(b: Seq<u8>, i: int, m: nat, j: int)
    requires
        decimal_at(b, i, m),
        i <= j,
        j - i <= dec_digits(m).len(),
        j == b.len() || !(0x30 <= b[j] <= 0x39),
    ensures
        j == i + dec_digits(m).len(),
        dec_digits(m).len() >= 1,
{
    lemma_dec_digits_are_digits(m);
    let t = j - i;
    if t < dec_digits(m).len() {
        lemma_starts_at_byte(b, i, dec_digits(m), t);
        assert(0x30 <= dec_digits(m)[t] <= 0x39);
        assert(j < b.len());
        assert(false);
    }
}

proof fn lemma_div_pow10_zero(m: nat)
    ensures
        m / pow10(0) == m,
{
    assert(pow10(0) == 1);
}

/// One step of reading a maximal decimal rendering: with `t` digits read
/// and their value in `n`, the digit byte at `i + t` extends `n` to the
/// value of the first `t + 1` digits.
#[verifier::rlimit(50)]
proof fn lemma_dec_step(b: Seq<u8>, i: int, m: nat, t: int, n: nat, d: nat)
    requires
        decimal_at(b, i, m),
        0 <= t <= dec_digits(m).len(),
        i + t < b.len(),
        0x30 <= b[i + t] <= 0x39,
        d == b[i + t] - 0x30,
        t == 0 ==> n == 0,
        t > 0 ==> n == m / pow10((dec_digits(m).len() - t) as nat),
    ensures
        t < dec_digits(m).len(),
        n <= m,
        n * 10 + d == m / pow10((dec_digits(m).len() - t - 1) as nat),
        n * 10 + d <= m,
{
    let len = dec_digits(m).len();
    lemma_dec_digits_are_digits(m);
    if t == len {
        // decimal_at says no digit follows the rendering, but one does
        assert(false);
    }
    lemma_dec_split(m, t + 1);
    let q = m / pow10((len - t - 1) as nat);
    lemma_starts_at_byte(b, i, dec_digits(m), t);
    assert(dec_digits(m).take(t + 1)[t] == dec_digits(m)[t]);
    lemma_dec_digits_are_digits(q);
    assert(b[i + t] == dec_digits(m)[t]);
    if q < 10 {
        lemma_dec_single(q);
        assert(dec_digits(m).take(t + 1).len() == t + 1);
        assert(t == 0);
        assert(dec_digits(m).take(1)[0] == dec_digits(m)[0]);
        assert(dec_digits(m)[0] == (0x30 + q) as u8);
        lemma_digit_value(q, b[i + t], d);
    } else {
        assert(dec_digits(q) == dec_digits(q / 10) + seq![(0x30 + q % 10) as u8]);
        assert(dec_digits(q).len() == t + 1);
        assert(t >= 1);
        lemma_dec_split(m, t);
        vstd::arithmetic::div_mod::lemma_div_denominator(
            m as int,
            pow10((len - t - 1) as nat) as int,
            10,
        );
        lemma_pow10_pos((len - t - 1) as nat);
        lemma_pow10_shape((len - t) as nat);
        assert(q / 10 == m / pow10((len - t) as nat));
        assert(dec_digits(q).take(t) =~= dec_digits(q / 10));
        assert(dec_digits(m).take(t + 1).take(t) =~= dec_digits(m).take(t));
        assert(dec_digits(q)[t] == (0x30 + q % 10) as u8);
        assert(dec_digits(m)[t] == dec_digits(m).take(t + 1)[t]);
        lemma_digit_value(q % 10, b[i + t], d);
        assert(d == q % 10);
        assert(n == q / 10);
        assert(n * 10 + d == q);
    }
}

/// Read a decimal integer starting at `i`: the value and the position after
/// its last digit. A maximal rendering of a value that fits in `usize` is
/// always read back as exactly that value.
fn scan_decimal(b: &Vec<u8>, i: usize) -> (r: Option<(usize, usize)>)
    ensures
        match r {
            Option::Some(p) => i < p.1 <= b@.len(),
            Option::None => true,
        },
        forall|m: nat|
            m <= usize::MAX && #[trigger] decimal_at(b@, i as int, m) ==> r is Some
                && r.unwrap().0 == m && r.unwrap().1 == i + dec_digits(m).len(),
{
    if i >= b.len() || b[i] < 0x30 || b[i] > 0x39 {
        proof {
            assert forall|m: nat| m <= usize::MAX && #[trigger] decimal_at(
                b@,
                i as int,
                m,
            ) implies false by {
                lemma_dec_digits_are_digits(m);
                lemma_starts_at_byte(b@, i as int, dec_digits(m), 0);
            }
        }
        return Option::None;
    }
    let mut n: usize = 0;
    let mut j: usize = i;
    while j < b.len() && 0x30 <= b[j] && b[j] <= 0x39
        invariant
            i <= j <= b@.len(),
            forall|m: nat|
                m <= usize::MAX && #[trigger] decimal_at(b@, i as int, m) ==> j - i
                    <= dec_digits(m).len() && (j > i ==> n == m / pow10(
                    (dec_digits(m).len() - (j - i)) as nat,
                )),
            j == i ==> n == 0,
        decreases b@.len() - j,
    {
        let d = (b[j] - 0x30) as usize;
        proof {
            assert forall|m: nat|
                m <= usize::MAX && #[trigger] decimal_at(b@, i as int, m) implies j - i
                < dec_digits(m).len() && n * 10 + d as nat <= m && n * 10 + d as nat == m / pow10(
                (dec_digits(m).len() - (j - i) - 1) as nat,
            ) by {
                lemma_dec_step(b@, i as int, m, j - i, n as nat, d as nat);
            }
        }
        if n > (usize::MAX - d) / 10 {
            proof {
                assert forall|m: nat| m <= usize::MAX && #[trigger] decimal_at(
                    b@,
                    i as int,
                    m,
                ) implies false by {
                    assert(n * 10 + d as nat <= m);
                    assert(n <= (usize::MAX - d) / 10) by {
                        assert(n * 10 <= usize::MAX - d);
                    }
                }
            }
            return Option::None;
        }
        n = n * 10 + d;
        j = j + 1;
    }
    if j == i {
        // unreachable in fact: the guard above saw a digit at `i`
        return Option::None;
    }
    proof {
        assert forall|m: nat| m <= usize::MAX && #[trigger] decimal_at(
            b@,
            i as int,
            m,
        ) implies n == m && j == i + dec_digits(m).len() by {
            lemma_dec_done(b@, i as int, m, j as int);
            assert(j > i);
            assert((dec_digits(m).len() - (j - i)) as nat == 0);
            lemma_div_pow10_zero(m);
        }
    }
    Option::Some((n, j))
}

proof fn lemma_pow10_shape(k: nat)
    requires
        k >= 1,
    ensures
        pow10(k) == 10 * pow10((k - 1) as nat),
{
}

/// Positions of every piece of a canonical profile document.
proof fn lemma_user_layout(b: Seq<u8>, v: UserV)
    requires
        b == json_user(v),
    ensures
        starts_at(b, 0, seq![0x7bu8] + key_name()),
        starts_at(b, 8, json_string(v.name)),
        starts_at(b, 8 + json_string(v.name).len() as int, seq![0x2cu8] + key_bio()),
        starts_at(b, 15 + json_string(v.name).len() as int, json_string(v.bio)),
        starts_at(
            b,
            15 + json_string(v.name).len() + json_string(v.bio).len() as int,
            seq![0x2cu8] + key_avatar(),
        ),
        starts_at(
            b,
            25 + json_string(v.name).len() + json_string(v.bio).len() as int,
            json_string(v.avatar),
        ),
        b.len() == 26 + json_string(v.name).len() + json_string(v.bio).len() + json_string(
            v.avatar,
        ).len(),
        b[b.len() - 1] == 0x7d,
{
    let n = json_string(v.name);
    let bi = json_string(v.bio);
    let av = json_string(v.avatar);
    assert(b.subrange(0, b.len() as int) =~= b);
    let a8 = seq![0x7bu8] + key_name() + n + seq![0x2cu8] + key_bio() + bi + seq![0x2cu8]
        + key_avatar() + av;
    lemma_starts_at_concat(b, 0, a8, seq![0x7du8]);
    let a7 = seq![0x7bu8] + key_name() + n + seq![0x2cu8] + key_bio() + bi + seq![0x2cu8]
        + key_avatar();
    lemma_starts_at_concat(b, 0, a7, av);
    let a6 = seq![0x7bu8] + key_name() + n + seq![0x2cu8] + key_bio() + bi + seq![0x2cu8];
    lemma_starts_at_concat(b, 0, a6, key_avatar());
    let a5 = seq![0x7bu8] + key_name() + n + seq![0x2cu8] + key_bio() + bi;
    lemma_starts_at_concat(b, 0, a5, seq![0x2cu8]);
    let a4 = seq![0x7bu8] + key_name() + n + seq![0x2cu8] + key_bio();
    lemma_starts_at_concat(b, 0, a4, bi);
    let a3 = seq![0x7bu8] + key_name() + n + seq![0x2cu8];
    lemma_starts_at_concat(b, 0, a3, key_bio());
    let a2 = seq![0x7bu8] + key_name() + n;
    lemma_starts_at_concat(b, 0, a2, seq![0x2cu8]);
    let a1 = seq![0x7bu8] + key_name();
    lemma_starts_at_concat(b, 0, a1, n);
    lemma_starts_at_join(b, a2.len() as int, seq![0x2cu8], key_bio());
    lemma_starts_at_join(b, a5.len() as int, seq![0x2cu8], key_avatar());
    lemma_starts_at_byte(b, a8.len() as int, seq![0x7du8], 0);
}

fn scan_user(b: &Vec<u8>) -> (r: Option<User>)
    ensures
        forall|v: UserV| b@ == #[trigger] json_user(v) ==> r is Some && r.unwrap()@ == v,
{
    let t0: [u8; 8] = [0x7b, 0x22, 0x6e, 0x61, 0x6d, 0x65, 0x22, 0x3a];
    proof {
        assert(t0@ =~= seq![0x7bu8] + key_name());
    }
    let i = match expect(b, 0, t0.as_slice()) {
        Option::Some(i) => i,
        Option::None => {
            proof {
                assert forall|v: UserV| b@ == #[trigger] json_user(v) implies false by {
                    lemma_user_layout(b@, v);
                }
            }
            return Option::None;
        },
    };
    let (name, i) = match scan_string(b, i) {
        Option::Some(p) => p,
        Option::None => {
            proof {
                assert forall|v: UserV| b@ == #[trigger] json_user(v) implies false by {
                    lemma_user_layout(b@, v);
                }
            }
            return Option::None;
        },
    };
    let t1: [u8; 7] = [0x2c, 0x22, 0x62, 0x69, 0x6f, 0x22, 0x3a];
    proof {
        assert(t1@ =~= seq![0x2cu8] + key_bio());
    }
    let i = match expect(b, i, t1.as_slice()) {
        Option::Some(i) => i,
        Option::None => {
            proof {
                assert forall|v: UserV| b@ == #[trigger] json_user(v) implies false by {
                    lemma_user_layout(b@, v);
                }
            }
            return Option::None;
        },
    };
    let (bio, i) = match scan_string(b, i) {
        Option::Some(p) => p,
        Option::None => {
            proof {
                assert forall|v: UserV| b@ == #[trigger] json_user(v) implies false by {
                    lemma_user_layout(b@, v);
                }
            }
            return Option::None;
        },
    };
    let t2: [u8; 10] = [0x2c, 0x22, 0x61, 0x76, 0x61, 0x74, 0x61, 0x72, 0x22, 0x3a];
    proof {
        assert(t2@ =~= seq![0x2cu8] + key_avatar());
    }
    let i = match expect(b, i, t2.as_slice()) {
        Option::Some(i) => i,
        Option::None => {
            proof {
                assert forall|v: UserV| b@ == #[trigger] json_user(v) implies false by {
                    lemma_user_layout(b@, v);
                }
            }
            return Option::None;
        },
    };
    let (avatar, i) = match scan_string(b, i) {
        Option::Some(p) => p,
        Option::None => {
            proof {
                assert forall|v: UserV| b@ == #[trigger] json_user(v) implies false by {
                    lemma_user_layout(b@, v);
                }
            }
            return Option::None;
        },
    };
    if b.len() >= 1 && i == b.len() - 1 && b[i] == 0x7d {
        let u = User { name, bio, avatar };
        proof {
            assert forall|v: UserV| b@ == #[trigger] json_user(v) implies u@ == v by {
                lemma_user_layout(b@, v);
            }
        }
        Option::Some(u)
    } else {
        proof {
            assert forall|v: UserV| b@ == #[trigger] json_user(v) implies false by {
                lemma_user_layout(b@, v);
            }
        }
        Option::None
    }
}

/// A link whose id a `usize` can hold, as every parsed link's can.
pub open spec fn link_id_fits(l: LinkV) -> bool {
    0 <= l.id <= usize::MAX
}

/// Every id of the collection fits a `usize`.
pub open spec fn links_fit(ls: Seq<LinkV>) -> bool {
    forall|k: int| 0 <= k < ls.len() ==> 0 <= #[trigger] ls[k].id <= usize::MAX
}

/// Positions of every piece of one canonical link object at `i`.
proof fn lemma_link_layout(b: Seq<u8>, i: int, l: LinkV)
    requires
        starts_at(b, i, json_link(l)),
    ensures
        starts_at(b, i, seq![0x7bu8] + key_id()),
        decimal_at(b, i + 6, l.id as nat),
        starts_at(b, i + 6 + dec_digits(l.id as nat).len() as int, seq![0x2cu8] + key_title()),
        starts_at(b, i + 15 + dec_digits(l.id as nat).len() as int, json_string(l.title)),
        starts_at(
            b,
            i + 15 + dec_digits(l.id as nat).len() + json_string(l.title).len() as int,
            seq![0x2cu8] + key_url(),
        ),
        starts_at(
            b,
            i + 22 + dec_digits(l.id as nat).len() + json_string(l.title).len() as int,
            json_string(l.url),
        ),
        json_link(l).len() == 23 + dec_digits(l.id as nat).len() + json_string(l.title).len()
            + json_string(l.url).len(),
        b[i + json_link(l).len() - 1] == 0x7d,
        i + json_link(l).len() <= b.len(),
{
    let d = dec_digits(l.id as nat);
    let ti = json_string(l.title);
    let ur = json_string(l.url);
    let a8 = seq![0x7bu8] + key_id() + d + seq![0x2cu8] + key_title() + ti + seq![0x2cu8]
        + key_url() + ur;
    lemma_starts_at_concat(b, i, a8, seq![0x7du8]);
    let a7 = seq![0x7bu8] + key_id() + d + seq![0x2cu8] + key_title() + ti + seq![0x2cu8]
        + key_url();
    lemma_starts_at_concat(b, i, a7, ur);
    let a6 = seq![0x7bu8] + key_id() + d + seq![0x2cu8] + key_title() + ti + seq![0x2cu8];
    lemma_starts_at_concat(b, i, a6, key_url());
    let a5 = seq![0x7bu8] + key_id() + d + seq![0x2cu8] + key_title() + ti;
    lemma_starts_at_concat(b, i, a5, seq![0x2cu8]);
    let a4 = seq![0x7bu8] + key_id() + d + seq![0x2cu8] + key_title();
    lemma_starts_at_concat(b, i, a4, ti);
    let a3 = seq![0x7bu8] + key_id() + d + seq![0x2cu8];
    lemma_starts_at_concat(b, i, a3, key_title());
    let a2 = seq![0x7bu8] + key_id() + d;
    lemma_starts_at_concat(b, i, a2, seq![0x2cu8]);
    let a1 = seq![0x7bu8] + key_id();
    lemma_starts_at_concat(b, i, a1, d);
    lemma_starts_at_join(b, i + a2.len(), seq![0x2cu8], key_title());
    lemma_starts_at_join(b, i + a5.len(), seq![0x2cu8], key_url());
    lemma_starts_at_byte(b, i + a2.len(), seq![0x2cu8], 0);
    lemma_starts_at_byte(b, i + a8.len(), seq![0x7du8], 0);
}

/// Read one link object starting at `i`: the link and the position after its
/// closing brace. A canonical link object whose id fits is always read back
/// as exactly that link.
fn scan_link(b: &Vec<u8>, i: usize) -> (r: Option<(Link, usize)>)
    ensures
        match r {
            Option::Some(p) => i < p.1 <= b@.len(),
            Option::None => true,
        },
        forall|l: LinkV|
            link_id_fits(l) && #[trigger] starts_at(b@, i as int, json_link(l)) ==> r is Some
                && r.unwrap().0@ == l && r.unwrap().1 == i + json_link(l).len(),
{
    let t0: [u8; 6] = [0x7b, 0x22, 0x69, 0x64, 0x22, 0x3a];
    proof {
        assert(t0@ =~= seq![0x7bu8] + key_id());
    }
    let j = match expect(b, i, t0.as_slice()) {
        Option::Some(j) => j,
        Option::None => {
            proof {
                assert forall|l: LinkV| link_id_fits(l) && #[trigger] starts_at(
                    b@,
                    i as int,
                    json_link(l),
                ) implies false by {
                    lemma_link_layout(b@, i as int, l);
                }
            }
            return Option::None;
        },
    };
    let (id, j) = match scan_decimal(b, j) {
        Option::Some(p) => p,
        Option::None => {
            proof {
                assert forall|l: LinkV| link_id_fits(l) && #[trigger] starts_at(
                    b@,
                    i as int,
                    json_link(l),
                ) implies false by {
                    lemma_link_layout(b@, i as int, l);
                }
            }
            return Option::None;
        },
    };
    let t1: [u8; 9] = [0x2c, 0x22, 0x74, 0x69, 0x74, 0x6c, 0x65, 0x22, 0x3a];
    proof {
        assert(t1@ =~= seq![0x2cu8] + key_title());
    }
    let j = match expect(b, j, t1.as_slice()) {
        Option::Some(j) => j,
        Option::None => {
            proof {
                assert forall|l: LinkV| link_id_fits(l) && #[trigger] starts_at(
                    b@,
                    i as int,
                    json_link(l),
                ) implies false by {
                    lemma_link_layout(b@, i as int, l);
                }
            }
            return Option::None;
        },
    };
    let (title, j) = match scan_string(b, j) {
        Option::Some(p) => p,
        Option::None => {
            proof {
                assert forall|l: LinkV| link_id_fits(l) && #[trigger] starts_at(
                    b@,
                    i as int,
                    json_link(l),
                ) implies false by {
                    lemma_link_layout(b@, i as int, l);
                }
            }
            return Option::None;
        },
    };
    let t2: [u8; 7] = [0x2c, 0x22, 0x75, 0x72, 0x6c, 0x22, 0x3a];
    proof {
        assert(t2@ =~= seq![0x2cu8] + key_url());
    }
    let j = match expect(b, j, t2.as_slice()) {
        Option::Some(j) => j,
        Option::None => {
            proof {
                assert forall|l: LinkV| link_id_fits(l) && #[trigger] starts_at(
                    b@,
                    i as int,
                    json_link(l),
                ) implies false by {
                    lemma_link_layout(b@, i as int, l);
                }
            }
            return Option::None;
        },
    };
    let (url, j) = match scan_string(b, j) {
        Option::Some(p) => p,
        Option::None => {
            proof {
                assert forall|l: LinkV| link_id_fits(l) && #[trigger] starts_at(
                    b@,
                    i as int,
                    json_link(l),
                ) implies false by {
                    lemma_link_layout(b@, i as int, l);
                }
            }
            return Option::None;
        },
    };
    if j < b.len() && b[j] == 0x7d {
        let link = Link { id, title, url };
        proof {
            assert forall|l: LinkV| link_id_fits(l) && #[trigger] starts_at(
                b@,
                i as int,
                json_link(l),
            ) implies link@ == l && j + 1 == i + json_link(l).len() by {
                lemma_link_layout(b@, i as int, l);
            }
        }
        Option::Some((link, j + 1))
    } else {
        proof {
            assert forall|l: LinkV| link_id_fits(l) && #[trigger] starts_at(
                b@,
                i as int,
                json_link(l),
            ) implies false by {
                lemma_link_layout(b@, i as int, l);
            }
        }
        Option::None
    }
}

/// The bytes between one link object and the closing bracket: a comma and
/// one more object, repeated.
spec fn links_rest(xs: Seq<LinkV>) -> Seq<u8>
    decreases xs.len(),
{
    if xs.len() == 0 {
        Seq::empty()
    } else {
        links_rest(xs.drop_last()) + seq![0x2cu8] + json_link(xs.last())
    }
}

proof fn lemma_body_head(ls: Seq<LinkV>)
    requires
        ls.len() >= 1,
    ensures
        json_links_body(ls) == json_link(ls[0]) + links_rest(ls.skip(1)),
    decreases ls.len(),
{
    if ls.len() == 1 {
        assert(ls.skip(1) =~= Seq::<LinkV>::empty());
        assert(json_links_body(ls) =~= json_link(ls[0]) + links_rest(ls.skip(1)));
    } else {
        let head = ls.drop_last();
        lemma_body_head(head);
        assert(head[0] == ls[0]);
        assert(ls.skip(1).drop_last() =~= head.skip(1));
        assert(ls.skip(1).last() == ls.last());
        assert(links_rest(ls.skip(1)) == links_rest(head.skip(1)) + seq![0x2cu8] + json_link(
            ls.last(),
        ));
        assert(json_links_body(ls) =~= json_link(ls[0]) + links_rest(ls.skip(1)));
    }
}

proof fn lemma_rest_head(xs: Seq<LinkV>)
    requires
        xs.len() >= 1,
    ensures
        links_rest(xs) == seq![0x2cu8] + json_link(xs[0]) + links_rest(xs.skip(1)),
    decreases xs.len(),
{
    if xs.len() == 1 {
        assert(xs.skip(1) =~= Seq::<LinkV>::empty());
        assert(xs.drop_last() =~= Seq::<LinkV>::empty());
        assert(links_rest(xs) =~= seq![0x2cu8] + json_link(xs[0]) + links_rest(xs.skip(1)));
    } else {
        let head = xs.drop_last();
        lemma_rest_head(head);
        assert(head[0] == xs[0]);
        assert(xs.skip(1).drop_last() =~= head.skip(1));
        assert(xs.skip(1).last() == xs.last());
        assert(links_rest(xs.skip(1)) == links_rest(head.skip(1)) + seq![0x2cu8] + json_link(
            xs.last(),
        ));
        assert(links_rest(xs) =~= seq![0x2cu8] + json_link(xs[0]) + links_rest(xs.skip(1)));
    }
}

#[verifier::rlimit(100)]
#[verifier::spinoff_prover]
fn scan_links(b: &Vec<u8>) -> (r: Option<Vec<Link>>)
    ensures
        forall|ls: Seq<LinkV>|
            links_fit(ls) && b@ == #[trigger] json_links(ls) ==> r is Some
                && r.unwrap().deep_view() == ls,
{
    if b.len() == 0 || b[0] != 0x5b {
        proof {
            assert forall|ls: Seq<LinkV>| links_fit(ls) && b@ == #[trigger] json_links(
                ls,
            ) implies false by {
                assert(b@[0] == (seq![0x5bu8] + json_links_body(ls) + seq![0x5du8])[0]);
            }
        }
        return Option::None;
    }
    if b.len() == 2 && b[1] == 0x5d {
        let out: Vec<Link> = Vec::new();
        proof {
            assert forall|ls: Seq<LinkV>| links_fit(ls) && b@ == #[trigger] json_links(
                ls,
            ) implies out.deep_view() == ls by {
                if ls.len() >= 1 {
                    lemma_body_head(ls);
                    assert(json_link(ls[0]).len() >= 1);
                    assert(b@.len() >= 3);
                    assert(false);
                }
                assert(out.deep_view() =~= ls);
            }
        }
        return Option::Some(out);
    }
    let mut out: Vec<Link> = Vec::new();
    let mut i: usize = 1;
    proof {
        assert forall|ls: Seq<LinkV>| links_fit(ls) && b@ == #[trigger] json_links(
            ls,
        ) implies {
            let t = out.deep_view().len() as int;
            &&& t < ls.len()
            &&& out.deep_view() == ls.take(t)
            &&& starts_at(
                b@,
                i as int,
                json_link(ls[t]) + links_rest(ls.skip(t + 1)) + seq![0x5du8],
            )
            &&& i + (json_link(ls[t]) + links_rest(ls.skip(t + 1)) + seq![0x5du8]).len()
                == b@.len()
        } by {
            if ls.len() == 0 {
                assert(b@ =~= seq![0x5bu8, 0x5du8]);
                assert(false);
            }
            lemma_body_head(ls);
            assert(b@ =~= seq![0x5bu8] + (json_link(ls[0]) + links_rest(ls.skip(1)) + seq![
                0x5du8,
            ]));
            assert(b@.subrange(0, b@.len() as int) =~= b@);
            lemma_starts_at_concat(
                b@,
                0,
                seq![0x5bu8],
                json_link(ls[0]) + links_rest(ls.skip(1)) + seq![0x5du8],
            );
            assert(out.deep_view() =~= ls.take(0));
        }
    }
    loop
        invariant
            0 < i <= b@.len(),
            forall|ls: Seq<LinkV>|
                links_fit(ls) && b@ == #[trigger] json_links(ls) ==> {
                    let t = out.deep_view().len() as int;
                    &&& t < ls.len()
                    &&& out.deep_view() == ls.take(t)
                    &&& starts_at(
                        b@,
                        i as int,
                        json_link(ls[t]) + links_rest(ls.skip(t + 1)) + seq![0x5du8],
                    )
                    &&& i + (json_link(ls[t]) + links_rest(ls.skip(t + 1)) + seq![
                        0x5du8,
                    ]).len() == b@.len()
                },
        decreases b@.len() - i,
    {
        let ghost t0 = out.deep_view().len() as int;
        proof {
            assert forall|ls: Seq<LinkV>| links_fit(ls) && b@ == #[trigger] json_links(
                ls,
            ) implies starts_at(b@, i as int, json_link(ls[t0])) && link_id_fits(ls[t0]) by {
                let t = t0;
                lemma_starts_at_concat(
                    b@,
                    i as int,
                    json_link(ls[t]) + links_rest(ls.skip(t + 1)),
                    seq![0x5du8],
                );
                lemma_starts_at_concat(
                    b@,
                    i as int,
                    json_link(ls[t]),
                    links_rest(ls.skip(t + 1)),
                );
                assert(0 <= ls[t].id <= usize::MAX);
            }
        }
        let (l, j) = match scan_link(b, i) {
            Option::Some(p) => p,
            Option::None => {
                proof {
                    assert forall|ls: Seq<LinkV>| links_fit(ls) && b@ == #[trigger] json_links(
                        ls,
                    ) implies false by {
                        assert(starts_at(b@, i as int, json_link(ls[t0])) && link_id_fits(
                            ls[t0],
                        ));
                    }
                }
                return Option::None;
            },
        };
        out.push(l);
        proof {
            assert forall|ls: Seq<LinkV>| links_fit(ls) && b@ == #[trigger] json_links(
                ls,
            ) implies {
                &&& out.deep_view() == ls.take(t0 + 1)
                &&& starts_at(b@, j as int, links_rest(ls.skip(t0 + 1)) + seq![0x5du8])
                &&& j + (links_rest(ls.skip(t0 + 1)) + seq![0x5du8]).len() == b@.len()
            } by {
                let t = t0;
                assert(l@ == ls[t]);
                assert(out.deep_view() =~= ls.take(t).push(ls[t]));
                assert(ls.take(t + 1) =~= ls.take(t).push(ls[t]));
                assert((json_link(ls[t]) + links_rest(ls.skip(t + 1)) + seq![0x5du8])
                    =~= json_link(ls[t]) + (links_rest(ls.skip(t + 1)) + seq![0x5du8]));
                assert(starts_at(
                    b@,
                    i as int,
                    json_link(ls[t]) + (links_rest(ls.skip(t + 1)) + seq![0x5du8]),
                ));
                lemma_starts_at_concat(
                    b@,
                    i as int,
                    json_link(ls[t]),
                    links_rest(ls.skip(t + 1)) + seq![0x5du8],
                );
            }
        }
        if b.len() >= 1 && j == b.len() - 1 && b[j] == 0x5d {
            proof {
                assert forall|ls: Seq<LinkV>| links_fit(ls) && b@ == #[trigger] json_links(
                    ls,
                ) implies out.deep_view() == ls by {
                    let t = t0;
                    if t + 1 < ls.len() {
                        lemma_rest_head(ls.skip(t + 1));
                        assert(links_rest(ls.skip(t + 1)) =~= seq![0x2cu8] + (json_link(
                            ls.skip(t + 1)[0],
                        ) + links_rest(ls.skip(t + 1).skip(1))));
                        lemma_starts_at_concat(
                            b@,
                            j as int,
                            links_rest(ls.skip(t + 1)),
                            seq![0x5du8],
                        );
                        lemma_starts_at_byte(b@, j as int, links_rest(ls.skip(t + 1)), 0);
                        assert(b@[j as int] == 0x2c);
                        assert(false);
                    }
                    assert(ls.skip(t + 1) =~= Seq::<LinkV>::empty());
                    assert(out.deep_view() =~= ls);
                }
            }
            return Option::Some(out);
        }
        if j < b.len() && b[j] == 0x2c {
            proof {
                assert forall|ls: Seq<LinkV>| links_fit(ls) && b@ == #[trigger] json_links(
                    ls,
                ) implies {
                    let t = out.deep_view().len() as int;
                    &&& t < ls.len()
                    &&& out.deep_view() == ls.take(t)
                    &&& starts_at(
                        b@,
                        j + 1,
                        json_link(ls[t]) + links_rest(ls.skip(t + 1)) + seq![0x5du8],
                    )
                    &&& j + 1 + (json_link(ls[t]) + links_rest(ls.skip(t + 1)) + seq![
                        0x5du8,
                    ]).len() == b@.len()
                } by {
                    let t = t0;
                    if t + 1 == ls.len() {
                        assert(links_rest(ls.skip(t + 1)) =~= Seq::<u8>::empty());
                        assert((links_rest(ls.skip(t + 1)) + seq![0x5du8]) =~= seq![0x5du8]);
                        lemma_starts_at_byte(b@, j as int, seq![0x5du8], 0);
                        assert(false);
                    }
                    lemma_rest_head(ls.skip(t + 1));
                    assert(ls.skip(t + 1)[0] == ls[t + 1]);
                    assert(ls.skip(t + 1).skip(1) =~= ls.skip(t + 2));
                    assert((links_rest(ls.skip(t + 1)) + seq![0x5du8]) =~= seq![0x2cu8]
                        + (json_link(ls[t + 1]) + links_rest(ls.skip(t + 2)) + seq![0x5du8]));
                    assert(starts_at(
                        b@,
                        j as int,
                        seq![0x2cu8] + (json_link(ls[t + 1]) + links_rest(ls.skip(t + 2))
                            + seq![0x5du8]),
                    ));
                    lemma_starts_at_concat(
                        b@,
                        j as int,
                        seq![0x2cu8],
                        json_link(ls[t + 1]) + links_rest(ls.skip(t + 2)) + seq![0x5du8],
                    );
                    assert(out.deep_view() == ls.take(t + 1));
                }
            }
            i = j + 1;
        } else {
            proof {
                assert forall|ls: Seq<LinkV>| links_fit(ls) && b@ == #[trigger] json_links(
                    ls,
                ) implies false by {
                    let t = t0;
                    if t + 1 == ls.len() {
                        assert(links_rest(ls.skip(t + 1)) =~= Seq::<u8>::empty());
                        assert((links_rest(ls.skip(t + 1)) + seq![0x5du8]) =~= seq![0x5du8]);
                        lemma_starts_at_byte(b@, j as int, seq![0x5du8], 0);
                        assert(b@[j as int] == 0x5d && j + 1 == b@.len());
                    } else {
                        lemma_rest_head(ls.skip(t + 1));
                        assert((links_rest(ls.skip(t + 1)) + seq![0x5du8]) =~= seq![0x2cu8]
                            + (json_link(ls.skip(t + 1)[0]) + links_rest(ls.skip(t + 1).skip(1))
                                + seq![0x5du8]));
                        assert(starts_at(
                            b@,
                            j as int,
                            seq![0x2cu8] + (json_link(ls.skip(t + 1)[0]) + links_rest(
                                ls.skip(t + 1).skip(1),
                            ) + seq![0x5du8]),
                        ));
                        lemma_starts_at_byte(
                            b@,
                            j as int,
                            seq![0x2cu8] + (json_link(ls.skip(t + 1)[0]) + links_rest(
                                ls.skip(t + 1).skip(1),
                            ) + seq![0x5du8]),
                            0,
                        );
                        assert(b@[j as int] == 0x2c && j < b@.len());
                    }
                }
            }
            return Option::None;
        }
        if i >= b.len() {
            proof {
                assert forall|ls: Seq<LinkV>| links_fit(ls) && b@ == #[trigger] json_links(
                    ls,
                ) implies false by {
                    let t = out.deep_view().len() as int;
                    assert(i + (json_link(ls[t]) + links_rest(ls.skip(t + 1)) + seq![
                        0x5du8,
                    ]).len() == b@.len());
                    assert((json_link(ls[t]) + links_rest(ls.skip(t + 1)) + seq![
                        0x5du8,
                    ]).len() >= 1);
                }
            }
            return Option::None;
        }
    }
}

/// Parse a persisted profile, exactly: a `Some` result proves the input was
/// that profile's canonical encoding, and every canonical encoding parses
/// back to the encoded profile. Everything else is `None`, for the load
/// path's in-memory fallback.
pub fn parse_user(b: &Vec<u8>) -> (r: Option<User>)
    ensures
        match r {
            Option::Some(u) => b@ == json_user(u@),
            Option::None => forall|v: UserV| b@ != #[trigger] json_user(v),
        },
        forall|v: UserV| b@ == #[trigger] json_user(v) ==> r is Some && r.unwrap()@ == v,
{
    match scan_user(b) {
        Option::Some(u) => {
            let ser = user_json(&u);
            if bytes_eq(&ser, b) {
                Option::Some(u)
            } else {
                Option::None
            }
        },
        Option::None => Option::None,
    }
}

/// Parse a persisted link collection, exactly: a `Some` result proves the
/// input was that collection's canonical encoding, and every canonical
/// encoding of links whose ids fit a `usize` parses back to the encoded
/// collection. Everything else is `None`.
pub fn parse_links(b: &Vec<u8>) -> (r: Option<Vec<Link>>)
    ensures
        match r {
            Option::Some(ls) => b@ == json_links(ls.deep_view()),
            Option::None => true,
        },
        forall|ls: Seq<LinkV>|
            links_fit(ls) && b@ == #[trigger] json_links(ls) ==> r is Some
                && r.unwrap().deep_view() == ls,
{
    match scan_links(b) {
        Option::Some(ls) => {
            let ser = links_json(&ls);
            if bytes_eq(&ser, b) {
                Option::Some(ls)
            } else {
                Option::None
            }
        },
        Option::None => Option::None,
    }
}

} // verus!
