//! Byte-exact JSON encoding of the persisted documents: the profile
//! (`user.json`), the link collection (`links.json`), and the content
//! document handed to the external site builder through its config file.
//! Every encoder's output is pinned, byte for byte, by a spec function.

use vstd::prelude::*;

use crate::state::{Link, LinkV, User, UserV};

verus! {

/// Lower-case hexadecimal digit for a value below sixteen.
pub open spec fn hex_digit(n: u8) -> u8 {
    if n < 10 {
        (0x30 + n) as u8
    } else {
        (0x57 + n) as u8
    }
}

/// JSON string-escape of one byte: `"` and `\` get a backslash, control
/// bytes become a `\u00XX` escape, everything else passes through.
pub open spec fn escape_byte(b: u8) -> Seq<u8> {
    if b == 0x22 {
        seq![0x5cu8, 0x22u8]
    } else if b == 0x5c {
        seq![0x5cu8, 0x5cu8]
    } else if b < 0x20 {
        seq![0x5cu8, 0x75u8, 0x30u8, 0x30u8, hex_digit(b / 16), hex_digit(b % 16)]
    } else {
        seq![b]
    }
}

/// JSON string-escape of a whole byte sequence.
pub open spec fn escaped(s: Seq<u8>) -> Seq<u8>
    decreases s.len(),
{
    if s.len() == 0 {
        Seq::empty()
    } else {
        escaped(s.drop_last()) + escape_byte(s.last())
    }
}

/// A JSON string literal: the escaped bytes between double quotes.
pub open spec fn json_string(s: Seq<u8>) -> Seq<u8> {
    seq![0x22u8] + escaped(s) + seq![0x22u8]
}

/// Decimal digits of a non-negative integer, most significant first.
pub open spec fn dec_digits(n: nat) -> Seq<u8>
    decreases n,
{
    if n < 10 {
        seq![(0x30 + n) as u8]
    } else {
        dec_digits(n / 10) + seq![(0x30 + n % 10) as u8]
    }
}

pub open spec fn key_name() -> Seq<u8> {
    seq![0x22, 0x6e, 0x61, 0x6d, 0x65, 0x22, 0x3a]
}

pub open spec fn key_bio() -> Seq<u8> {
    seq![0x22, 0x62, 0x69, 0x6f, 0x22, 0x3a]
}

pub open spec fn key_avatar() -> Seq<u8> {
    seq![0x22, 0x61, 0x76, 0x61, 0x74, 0x61, 0x72, 0x22, 0x3a]
}

pub open spec fn key_id() -> Seq<u8> {
    seq![0x22, 0x69, 0x64, 0x22, 0x3a]
}

pub open spec fn key_title() -> Seq<u8> {
    seq![0x22, 0x74, 0x69, 0x74, 0x6c, 0x65, 0x22, 0x3a]
}

pub open spec fn key_url() -> Seq<u8> {
    seq![0x22, 0x75, 0x72, 0x6c, 0x22, 0x3a]
}

pub open spec fn key_user() -> Seq<u8> {
    seq![0x22, 0x75, 0x73, 0x65, 0x72, 0x22, 0x3a]
}

pub open spec fn key_links() -> Seq<u8> {
    seq![0x22, 0x6c, 0x69, 0x6e, 0x6b, 0x73, 0x22, 0x3a]
}

/// The JSON object persisted for the profile.
pub open spec fn json_user(u: UserV) -> Seq<u8> {
    seq![0x7b] + key_name() + json_string(u.name) + seq![0x2c] + key_bio() + json_string(u.bio)
        + seq![0x2c] + key_avatar() + json_string(u.avatar) + seq![0x7d]
}

/// The JSON object for one link.
pub open spec fn json_link(l: LinkV) -> Seq<u8> {
    seq![0x7b] + key_id() + dec_digits(l.id as nat) + seq![0x2c] + key_title() + json_string(
        l.title,
    ) + seq![0x2c] + key_url() + json_string(l.url) + seq![0x7d]
}

/// The comma-separated bodies of the links array.
pub open spec fn json_links_body(ls: Seq<LinkV>) -> Seq<u8>
    decreases ls.len(),
{
    if ls.len() == 0 {
        Seq::empty()
    } else if ls.len() == 1 {
        json_link(ls[0])
    } else {
        json_links_body(ls.drop_last()) + seq![0x2c] + json_link(ls.last())
    }
}

/// The JSON array persisted for the link collection.
pub open spec fn json_links(ls: Seq<LinkV>) -> Seq<u8> {
    seq![0x5b] + json_links_body(ls) + seq![0x5d]
}

/// The content document handed to the builder: the profile together with the
/// ordered links.
pub open spec fn json_content(u: UserV, ls: Seq<LinkV>) -> Seq<u8> {
    seq![0x7b] + key_user() + json_user(u) + seq![0x2c] + key_links() + json_links(ls)
        + seq![0x7d]
}

/// Escaping distributes over concatenation.
pub proof fn lemma_escaped_add(a: Seq<u8>, b: Seq<u8>)
    ensures
        escaped(a + b) == escaped(a) + escaped(b),
    decreases b.len(),
{
    if b.len() == 0 {
        assert(a + b =~= a);
        assert(escaped(a) + escaped(b) =~= escaped(a));
    } else {
        lemma_escaped_add(a, b.drop_last());
        assert((a + b).drop_last() =~= a + b.drop_last());
        assert((a + b).last() == b.last());
        assert(escaped(a) + escaped(b) =~= escaped(a) + escaped(b.drop_last()) + escape_byte(
            b.last(),
        ));
        assert(escaped(a + b) =~= escaped(a) + escaped(b));
    }
}

/// The escape of a sequence splits at any position into the escape of the
/// prefix, the escape of the byte there, and the escape of the rest.
pub proof fn lemma_escaped_split(s: Seq<u8>, k: int)
    requires
        0 <= k < s.len(),
    ensures
        escaped(s.take(k + 1)) == escaped(s.take(k)) + escape_byte(s[k]),
        escaped(s) == escaped(s.take(k)) + escape_byte(s[k]) + escaped(s.skip(k + 1)),
{
    assert(s.take(k + 1).drop_last() =~= s.take(k));
    assert(s.take(k + 1).last() == s[k]);
    assert(s =~= s.take(k + 1) + s.skip(k + 1));
    lemma_escaped_add(s.take(k + 1), s.skip(k + 1));
    assert(escaped(s) =~= escaped(s.take(k)) + escape_byte(s[k]) + escaped(s.skip(k + 1)));
}

/// Every byte of a decimal rendering is an ASCII digit, and there is at
/// least one.
pub proof fn lemma_dec_digits_are_digits(n: nat)
    ensures
        dec_digits(n).len() >= 1,
        forall|j: int|
            0 <= j < dec_digits(n).len() ==> 0x30 <= #[trigger] dec_digits(n)[j] <= 0x39,
    decreases n,
{
    if n >= 10 {
        lemma_dec_digits_are_digits(n / 10);
    }
}

fn hex_digit_ex(n: u8) -> (r: u8)
    requires
        n < 16,
    ensures
        r == hex_digit(n),
{
    if n < 10 {
        0x30 + n
    } else {
        0x57 + n
    }
}

fn push_escaped(out: &mut Vec<u8>, s: &Vec<u8>)
    ensures
        final(out)@ == old(out)@ + escaped(s@),
{
    let ghost base = out@;
    let mut i: usize = 0;
    proof {
        assert(s@.take(0) =~= Seq::<u8>::empty());
        assert(base + escaped(s@.take(0)) =~= base);
    }
    while i < s.len()
        invariant
            i <= s.len(),
            out@ == base + escaped(s@.take(i as int)),
        decreases s.len() - i,
    {
        let b = s[i];
        if b == 0x22 {
            out.push(0x5c);
            out.push(0x22);
        } else if b == 0x5c {
            out.push(0x5c);
            out.push(0x5c);
        } else if b < 0x20 {
            out.push(0x5c);
            out.push(0x75);
            out.push(0x30);
            out.push(0x30);
            out.push(hex_digit_ex(b / 16));
            out.push(hex_digit_ex(b % 16));
        } else {
            out.push(b);
        }
        i = i + 1;
        proof {
            let j = i as int;
            assert(s@.take(j).drop_last() =~= s@.take(j - 1));
            assert(escaped(s@.take(j)) == escaped(s@.take(j - 1)) + escape_byte(s@[j - 1]));
            assert(out@ =~= base + escaped(s@.take(j)));
        }
    }
    proof {
        assert(s@.take(s@.len() as int) =~= s@);
    }
}

fn push_json_string(out: &mut Vec<u8>, s: &Vec<u8>)
    ensures
        final(out)@ == old(out)@ + json_string(s@),
{
    let ghost base = out@;
    out.push(0x22);
    push_escaped(out, s);
    out.push(0x22);
    proof {
        assert(out@ =~= base + json_string(s@));
    }
}

fn push_decimal(out: &mut Vec<u8>, n: usize)
    ensures
        final(out)@ == old(out)@ + dec_digits(n as nat),
    decreases n,
{
    let ghost base = out@;
    if n >= 10 {
        push_decimal(out, n / 10);
    }
    out.push(0x30 + (n % 10) as u8);
    proof {
        assert(out@ =~= base + dec_digits(n as nat));
    }
}

fn push_key(out: &mut Vec<u8>, key: &[u8])
    ensures
        final(out)@ == old(out)@ + key@,
{
    let ghost base = out@;
    let mut i: usize = 0;
    while i < key.len()
        invariant
            i <= key@.len(),
            out@ == base + key@.take(i as int),
        decreases key@.len() - i,
    {
        let b = key[i];
        out.push(b);
        i = i + 1;
        proof {
            assert(out@ =~= base + key@.take(i as int));
        }
    }
    proof {
        assert(key@.take(key@.len() as int) =~= key@);
    }
}

fn push_user_json(out: &mut Vec<u8>, u: &User)
    ensures
        final(out)@ == old(out)@ + json_user(u@),
{
    let ghost base = out@;
    out.push(0x7b);
    let kn: [u8; 7] = [0x22, 0x6e, 0x61, 0x6d, 0x65, 0x22, 0x3a];
    push_key(out, kn.as_slice());
    proof {
        assert(kn@ =~= key_name());
    }
    push_json_string(out, &u.name);
    out.push(0x2c);
    let kb: [u8; 6] = [0x22, 0x62, 0x69, 0x6f, 0x22, 0x3a];
    push_key(out, kb.as_slice());
    proof {
        assert(kb@ =~= key_bio());
    }
    push_json_string(out, &u.bio);
    out.push(0x2c);
    let ka: [u8; 9] = [0x22, 0x61, 0x76, 0x61, 0x74, 0x61, 0x72, 0x22, 0x3a];
    push_key(out, ka.as_slice());
    proof {
        assert(ka@ =~= key_avatar());
    }
    push_json_string(out, &u.avatar);
    out.push(0x7d);
    proof {
        assert(out@ =~= base + json_user(u@));
    }
}

fn push_link_json(out: &mut Vec<u8>, l: &Link)
    ensures
        final(out)@ == old(out)@ + json_link(l@),
{
    let ghost base = out@;
    out.push(0x7b);
    let ki: [u8; 5] = [0x22, 0x69, 0x64, 0x22, 0x3a];
    push_key(out, ki.as_slice());
    proof {
        assert(ki@ =~= key_id());
    }
    push_decimal(out, l.id);
    out.push(0x2c);
    let kt: [u8; 8] = [0x22, 0x74, 0x69, 0x74, 0x6c, 0x65, 0x22, 0x3a];
    push_key(out, kt.as_slice());
    proof {
        assert(kt@ =~= key_title());
    }
    push_json_string(out, &l.title);
    out.push(0x2c);
    let ku: [u8; 6] = [0x22, 0x75, 0x72, 0x6c, 0x22, 0x3a];
    push_key(out, ku.as_slice());
    proof {
        assert(ku@ =~= key_url());
    }
    push_json_string(out, &l.url);
    out.push(0x7d);
    proof {
        assert(out@ =~= base + json_link(l@));
    }
}

/// Encode the profile exactly as it is persisted in `user.json`.
pub fn user_json(u: &User) -> (r: Vec<u8>)
    ensures
        r@ == json_user(u@),
{
    let mut out: Vec<u8> = Vec::new();
    push_user_json(&mut out, u);
    proof {
        assert(out@ =~= json_user(u@));
    }
    out
}

fn push_links_json(out: &mut Vec<u8>, ls: &Vec<Link>)
    ensures
        final(out)@ == old(out)@ + json_links(ls.deep_view()),
{
    let ghost base = out@;
    let ghost all = ls.deep_view();
    out.push(0x5b);
    let mut i: usize = 0;
    proof {
        assert(all.take(0) =~= Seq::<LinkV>::empty());
        assert(out@ =~= base + seq![0x5b] + json_links_body(all.take(0)));
    }
    while i < ls.len()
        invariant
            i <= ls.len(),
            all == ls.deep_view(),
            out@ == base + seq![0x5b] + json_links_body(all.take(i as int)),
        decreases ls.len() - i,
    {
        if i > 0 {
            out.push(0x2c);
        }
        push_link_json(out, &ls[i]);
        i = i + 1;
        proof {
            let j = i as int;
            assert(all.take(j).drop_last() =~= all.take(j - 1));
            assert(all.take(j)[j - 1] == all[j - 1]);
            if j == 1 {
                assert(json_links_body(all.take(1)) == json_link(all.take(1)[0]));
                assert(out@ =~= base + seq![0x5b] + json_links_body(all.take(j)));
            } else {
                assert(json_links_body(all.take(j)) == json_links_body(all.take(j - 1)) + seq![
                    0x2c,
                ] + json_link(all[j - 1]));
                assert(out@ =~= base + seq![0x5b] + json_links_body(all.take(j)));
            }
        }
    }
    out.push(0x5d);
    proof {
        assert(all.take(ls@.len() as int) =~= all);
        assert(out@ =~= base + json_links(all));
    }
}

/// Encode the link collection exactly as it is persisted in `links.json`.
pub fn links_json(ls: &Vec<Link>) -> (r: Vec<u8>)
    ensures
        r@ == json_links(ls.deep_view()),
{
    let mut out: Vec<u8> = Vec::new();
    push_links_json(&mut out, ls);
    proof {
        assert(out@ =~= json_links(ls.deep_view()));
    }
    out
}

/// Encode the content document exactly as the builder's config file holds it.
pub fn content_json(u: &User, ls: &Vec<Link>) -> (r: Vec<u8>)
    ensures
        r@ == json_content(u@, ls.deep_view()),
{
    let mut out: Vec<u8> = Vec::new();
    out.push(0x7b);
    let ku: [u8; 7] = [0x22, 0x75, 0x73, 0x65, 0x72, 0x22, 0x3a];
    push_key(&mut out, ku.as_slice());
    proof {
        assert(ku@ =~= key_user());
    }
    push_user_json(&mut out, u);
    out.push(0x2c);
    let kl: [u8; 8] = [0x22, 0x6c, 0x69, 0x6e, 0x6b, 0x73, 0x22, 0x3a];
    push_key(&mut out, kl.as_slice());
    proof {
        assert(kl@ =~= key_links());
    }
    push_links_json(&mut out, ls);
    out.push(0x7d);
    proof {
        assert(out@ =~= json_content(u@, ls.deep_view()));
    }
    out
}

} // verus!
