//! The binary form of a stored record.
//!
//! A record is laid out as: one length byte and the principal's bytes; a tag
//! byte and, when present, a length-prefixed UTF-8 string for `username` and
//! for `logo_url`; a tag byte and, when present, eight little-endian bytes
//! for `neuron_id`; a four-byte count and one length-prefixed UTF-8 string
//! per followed topic; and eight little-endian bytes each for `created_at`
//! and `updated_at`. Decoding rejects malformed, truncated, or oversized
//! input and input with trailing bytes; encode then decode reproduces the
//! record exactly.

use vstd::prelude::*;
use vstd::bytes::*;
use vstd::utf8::{decode_utf8, encode_utf8, valid_utf8};

use crate::user::{Identity, User, UserView, MAX_IDENTITY_LEN};

verus! {

/// The declared size bound of an encoded record, in bytes.
pub const MAX_VALUE_SIZE: usize = 2048;

/// A length-prefixed UTF-8 string: four little-endian length bytes, then the
/// encoded characters.
pub open spec fn enc_str(s: Seq<char>) -> Seq<u8> {
    spec_u32_to_le_bytes(encode_utf8(s).len() as u32) + encode_utf8(s)
}

/// An optional string: a tag byte, then the string when present.
pub open spec fn enc_opt_str(o: Option<Seq<char>>) -> Seq<u8> {
    match o {
        Option::None => seq![0u8],
        Option::Some(s) => seq![1u8] + enc_str(s),
    }
}

/// An optional 64-bit value: a tag byte, then eight bytes when present.
pub open spec fn enc_opt_u64(o: Option<u64>) -> Seq<u8> {
    match o {
        Option::None => seq![0u8],
        Option::Some(n) => seq![1u8] + spec_u64_to_le_bytes(n),
    }
}

/// The topics, one length-prefixed string after the other.
pub open spec fn enc_topics(l: Seq<Seq<char>>) -> Seq<u8>
    decreases l.len(),
{
    if l.len() == 0 {
        Seq::empty()
    } else {
        enc_str(l[0]) + enc_topics(l.drop_first())
    }
}

/// The encoded bytes of a record.
pub open spec fn spec_encode_user(u: UserView) -> Seq<u8> {
    seq![u.principal.len() as u8] + u.principal + enc_opt_str(u.username) + enc_opt_str(
        u.logo_url,
    ) + enc_opt_u64(u.neuron_id) + spec_u32_to_le_bytes(u.followed_topics.len() as u32)
        + enc_topics(u.followed_topics) + spec_u64_to_le_bytes(u.created_at) + spec_u64_to_le_bytes(
        u.updated_at,
    )
}

/// Whether every length field of the record fits its four-byte prefix.
pub open spec fn fits_u32(u: UserView) -> bool {
    &&& (u.username matches Some(s) ==> encode_utf8(s).len() < 0x1_0000_0000)
    &&& (u.logo_url matches Some(s) ==> encode_utf8(s).len() < 0x1_0000_0000)
    &&& u.followed_topics.len() < 0x1_0000_0000
    &&& forall|i: int|
        0 <= i < u.followed_topics.len() ==> encode_utf8(#[trigger] u.followed_topics[i]).len()
            < 0x1_0000_0000
}

// ----- decoding, one step at a time; each step yields the value and the rest -----

pub open spec fn dec_u8(b: Seq<u8>) -> Option<(u8, Seq<u8>)> {
    if b.len() >= 1 {
        Some((b[0], b.skip(1)))
    } else {
        None
    }
}

pub open spec fn dec_u32(b: Seq<u8>) -> Option<(u32, Seq<u8>)> {
    if b.len() >= 4 {
        Some((spec_u32_from_le_bytes(b.take(4)), b.skip(4)))
    } else {
        None
    }
}

pub open spec fn dec_u64(b: Seq<u8>) -> Option<(u64, Seq<u8>)> {
    if b.len() >= 8 {
        Some((spec_u64_from_le_bytes(b.take(8)), b.skip(8)))
    } else {
        None
    }
}

pub open spec fn dec_raw(b: Seq<u8>, n: nat) -> Option<(Seq<u8>, Seq<u8>)> {
    if b.len() >= n {
        Some((b.take(n as int), b.skip(n as int)))
    } else {
        None
    }
}

pub open spec fn dec_str(b: Seq<u8>) -> Option<(Seq<char>, Seq<u8>)> {
    match dec_u32(b) {
        Option::None => None,
        Option::Some((n, r)) => match dec_raw(r, n as nat) {
            Option::None => None,
            Option::Some((bs, r2)) => if valid_utf8(bs) {
                Some((decode_utf8(bs), r2))
            } else {
                None
            },
        },
    }
}

pub open spec fn dec_opt_str(b: Seq<u8>) -> Option<(Option<Seq<char>>, Seq<u8>)> {
    match dec_u8(b) {
        Option::None => None,
        Option::Some((tag, r)) => if tag == 0 {
            Some((None, r))
        } else if tag == 1 {
            match dec_str(r) {
                Option::None => None,
                Option::Some((s, r2)) => Some((Some(s), r2)),
            }
        } else {
            None
        },
    }
}

pub open spec fn dec_opt_u64(b: Seq<u8>) -> Option<(Option<u64>, Seq<u8>)> {
    match dec_u8(b) {
        Option::None => None,
        Option::Some((tag, r)) => if tag == 0 {
            Some((None, r))
        } else if tag == 1 {
            match dec_u64(r) {
                Option::None => None,
                Option::Some((n, r2)) => Some((Some(n), r2)),
            }
        } else {
            None
        },
    }
}

pub open spec fn dec_topics(b: Seq<u8>, n: nat) -> Option<(Seq<Seq<char>>, Seq<u8>)>
    decreases n,
{
    if n == 0 {
        Some((Seq::empty(), b))
    } else {
        match dec_str(b) {
            Option::None => None,
            Option::Some((s, r)) => match dec_topics(r, (n - 1) as nat) {
                Option::None => None,
                Option::Some((l, r2)) => Some((seq![s] + l, r2)),
            },
        }
    }
}

/// The record held in the given bytes, or `None` where they are not exactly
/// the encoding of one record.
pub open spec fn spec_decode_user(b: Seq<u8>) -> Option<UserView> {
    match dec_u8(b) {
        Option::None => None,
        Option::Some((klen, r0)) => if klen as int > MAX_IDENTITY_LEN as int {
            None
        } else {
            match dec_raw(r0, klen as nat) {
                Option::None => None,
                Option::Some((key, r1)) => match dec_opt_str(r1) {
                    Option::None => None,
                    Option::Some((username, r2)) => match dec_opt_str(r2) {
                        Option::None => None,
                        Option::Some((logo_url, r3)) => match dec_opt_u64(r3) {
                            Option::None => None,
                            Option::Some((neuron_id, r4)) => match dec_u32(r4) {
                                Option::None => None,
                                Option::Some((count, r5)) => match dec_topics(r5, count as nat) {
                                    Option::None => None,
                                    Option::Some((topics, r6)) => match dec_u64(r6) {
                                        Option::None => None,
                                        Option::Some((created_at, r7)) => match dec_u64(r7) {
                                            Option::None => None,
                                            Option::Some((updated_at, r8)) => if r8.len() == 0 {
                                                Some(
                                                    UserView {
                                                        principal: key,
                                                        username,
                                                        logo_url,
                                                        neuron_id,
                                                        followed_topics: topics,
                                                        created_at,
                                                        updated_at,
                                                    },
                                                )
                                            } else {
                                                None
                                            },
                                        },
                                    },
                                },
                            },
                        },
                    },
                },
            }
        },
    }
}

/// Relies on `String::from_utf8`: it succeeds exactly on valid UTF-8 input
/// and returns the string whose characters decode those bytes.
#[verifier::external_body]
pub(crate) fn string_from_utf8(v: Vec<u8>) -> (r: Option<String>)
    ensures
        r is Some <==> valid_utf8(v@),
        r matches Some(s) ==> s@ == decode_utf8(v@),
{
    String::from_utf8(v).ok()
}

// ----- encoding -----

/// Appends the length-prefixed UTF-8 form of `s`; fails fast on a string too
/// long for one record.
fn append_str(out: &mut Vec<u8>, s: &String) -> (ok: bool)
    ensures
        ok ==> final(out)@ == old(out)@ + enc_str(s@) && encode_utf8(s@).len() <= MAX_VALUE_SIZE,
        !ok ==> final(out)@ == old(out)@ && encode_utf8(s@).len() > MAX_VALUE_SIZE,
{
    let sb = s.as_str().as_bytes();
    let n = sb.len();
    if n > MAX_VALUE_SIZE {
        return false;
    }
    let mut lb = u32_to_le_bytes(n as u32);
    out.append(&mut lb);
    let mut bv = vstd::slice::slice_to_vec(sb);
    out.append(&mut bv);
    proof {
        assert(out@ =~= old(out)@ + enc_str(s@));
    }
    true
}

/// Encodes a record, or returns `None` where its encoding would exceed
/// `MAX_VALUE_SIZE`.
pub fn encode_user(u: &User) -> (r: Option<Vec<u8>>)
    requires
        u.principal.wf(),
    ensures
        r matches Some(b) ==> b@ == spec_encode_user(u@) && b@.len() <= MAX_VALUE_SIZE,
        r is None ==> spec_encode_user(u@).len() > MAX_VALUE_SIZE,
{
    let ghost uv = u@;
    proof {
        lemma_auto_spec_u32_to_from_le_bytes();
        lemma_auto_spec_u64_to_from_le_bytes();
    }
    let mut out: Vec<u8> = Vec::new();
    let key = u.principal.as_bytes();
    out.push(key.len() as u8);
    let mut kv = u.principal.to_key();
    out.append(&mut kv);
    let ghost g0 = out@;
    proof {
        assert(g0 =~= seq![uv.principal.len() as u8] + uv.principal);
    }

    match &u.username {
        Option::Some(s) => {
            out.push(1u8);
            if !append_str(&mut out, s) {
                return None;
            }
            proof {
                assert(out@ =~= g0 + enc_opt_str(uv.username));
            }
        },
        Option::None => {
            out.push(0u8);
            proof {
                assert(out@ =~= g0 + enc_opt_str(uv.username));
            }
        },
    }
    let ghost g1 = out@;
    assert(g1 == g0 + enc_opt_str(uv.username));

    match &u.logo_url {
        Option::Some(s) => {
            out.push(1u8);
            if !append_str(&mut out, s) {
                return None;
            }
            proof {
                assert(out@ =~= g1 + enc_opt_str(uv.logo_url));
            }
        },
        Option::None => {
            out.push(0u8);
            proof {
                assert(out@ =~= g1 + enc_opt_str(uv.logo_url));
            }
        },
    }
    let ghost g2 = out@;
    assert(g2 == g1 + enc_opt_str(uv.logo_url));

    match &u.neuron_id {
        Option::Some(n) => {
            out.push(1u8);
            let mut nb = u64_to_le_bytes(*n);
            out.append(&mut nb);
            proof {
                assert(out@ =~= g2 + enc_opt_u64(uv.neuron_id));
            }
        },
        Option::None => {
            out.push(0u8);
            proof {
                assert(out@ =~= g2 + enc_opt_u64(uv.neuron_id));
            }
        },
    }
    let ghost g3 = out@;
    assert(g3 == g2 + enc_opt_u64(uv.neuron_id));

    let tcount = u.followed_topics.len();
    if tcount > MAX_VALUE_SIZE {
        proof {
            lemma_enc_topics_min_len(uv.followed_topics);
        }
        return None;
    }
    let mut cb = u32_to_le_bytes(tcount as u32);
    out.append(&mut cb);
    let ghost g4 = out@;
    assert(g4 == g3 + spec_u32_to_le_bytes(uv.followed_topics.len() as u32));

    let mut ti: usize = 0;
    while ti < u.followed_topics.len()
        invariant
            ti <= u.followed_topics.len(),
            uv == u@,
            out@ == g4 + enc_topics(uv.followed_topics.take(ti as int)),
        decreases u.followed_topics.len() - ti,
    {
        let s = &u.followed_topics[ti];
        let ghost gpre = out@;
        if !append_str(&mut out, s) {
            proof {
                lemma_enc_topics_elem(uv.followed_topics, ti as int);
                lemma_auto_spec_u32_to_from_le_bytes();
            }
            return None;
        }
        proof {
            assert(uv.followed_topics.take(ti + 1) =~= uv.followed_topics.take(ti as int).push(
                uv.followed_topics[ti as int],
            ));
            lemma_enc_topics_snoc(
                uv.followed_topics.take(ti as int),
                uv.followed_topics[ti as int],
            );
            assert(out@ =~= g4 + enc_topics(uv.followed_topics.take(ti + 1)));
        }
        ti += 1;
    }
    proof {
        assert(uv.followed_topics.take(u.followed_topics.len() as int) =~= uv.followed_topics);
    }
    let ghost g5 = out@;
    assert(g5 == g4 + enc_topics(uv.followed_topics));

    let mut ca = u64_to_le_bytes(u.created_at);
    out.append(&mut ca);
    let ghost g6 = out@;
    let mut ua = u64_to_le_bytes(u.updated_at);
    out.append(&mut ua);

    proof {
        assert(out@ == spec_encode_user(uv));
    }
    if out.len() > MAX_VALUE_SIZE {
        return None;
    }
    Some(out)
}

// ----- decoding -----

fn read_u8(b: &Vec<u8>, i: usize) -> (r: Option<(u8, usize)>)
    requires
        i <= b@.len(),
    ensures
        match r {
            Some(p) => i < p.1 <= b@.len() && dec_u8(b@.skip(i as int)) == Some(
                (p.0, b@.skip(p.1 as int)),
            ),
            None => dec_u8(b@.skip(i as int)) is None,
        },
{
    if i < b.len() {
        let v = b[i];
        proof {
            assert(b@.skip(i as int)[0] == b@[i as int]);
            assert(b@.skip(i as int).skip(1) =~= b@.skip(i as int + 1));
        }
        Some((v, i + 1))
    } else {
        None
    }
}

fn read_u32(b: &Vec<u8>, i: usize) -> (r: Option<(u32, usize)>)
    requires
        i <= b@.len(),
    ensures
        match r {
            Some(p) => i < p.1 <= b@.len() && dec_u32(b@.skip(i as int)) == Some(
                (p.0, b@.skip(p.1 as int)),
            ),
            None => dec_u32(b@.skip(i as int)) is None,
        },
{
    if b.len() - i >= 4 {
        let sl = vstd::slice::slice_subrange(b.as_slice(), i, i + 4);
        let v = u32_from_le_bytes(sl);
        proof {
            assert(b@.skip(i as int).take(4) =~= b@.subrange(i as int, i as int + 4));
            assert(b@.skip(i as int).skip(4) =~= b@.skip(i as int + 4));
        }
        Some((v, i + 4))
    } else {
        None
    }
}

fn read_u64(b: &Vec<u8>, i: usize) -> (r: Option<(u64, usize)>)
    requires
        i <= b@.len(),
    ensures
        match r {
            Some(p) => i < p.1 <= b@.len() && dec_u64(b@.skip(i as int)) == Some(
                (p.0, b@.skip(p.1 as int)),
            ),
            None => dec_u64(b@.skip(i as int)) is None,
        },
{
    if b.len() - i >= 8 {
        let sl = vstd::slice::slice_subrange(b.as_slice(), i, i + 8);
        let v = u64_from_le_bytes(sl);
        proof {
            assert(b@.skip(i as int).take(8) =~= b@.subrange(i as int, i as int + 8));
            assert(b@.skip(i as int).skip(8) =~= b@.skip(i as int + 8));
        }
        Some((v, i + 8))
    } else {
        None
    }
}

fn read_chunk(b: &Vec<u8>, i: usize, n: usize) -> (r: Option<(Vec<u8>, usize)>)
    requires
        i <= b@.len(),
    ensures
        match r {
            Some(p) => i <= p.1 <= b@.len() && dec_raw(b@.skip(i as int), n as nat) == Some(
                (p.0@, b@.skip(p.1 as int)),
            ),
            None => dec_raw(b@.skip(i as int), n as nat) is None,
        },
{
    if b.len() - i >= n {
        let sl = vstd::slice::slice_subrange(b.as_slice(), i, i + n);
        let v = vstd::slice::slice_to_vec(sl);
        proof {
            assert(b@.skip(i as int).take(n as int) =~= b@.subrange(i as int, i as int + n));
            assert(b@.skip(i as int).skip(n as int) =~= b@.skip(i as int + n));
        }
        Some((v, i + n))
    } else {
        None
    }
}

fn read_string(b: &Vec<u8>, i: usize) -> (r: Option<(String, usize)>)
    requires
        i <= b@.len(),
    ensures
        match r {
            Some(p) => i < p.1 <= b@.len() && dec_str(b@.skip(i as int)) == Some(
                (p.0@, b@.skip(p.1 as int)),
            ),
            None => dec_str(b@.skip(i as int)) is None,
        },
{
    let (n, i1) = match read_u32(b, i) {
        Option::Some(p) => p,
        Option::None => {
            return None;
        },
    };
    let (chunk, i2) = match read_chunk(b, i1, n as usize) {
        Option::Some(p) => p,
        Option::None => {
            return None;
        },
    };
    match string_from_utf8(chunk) {
        Option::Some(s) => Some((s, i2)),
        Option::None => None,
    }
}

fn read_opt_string(b: &Vec<u8>, i: usize) -> (r: Option<(Option<String>, usize)>)
    requires
        i <= b@.len(),
    ensures
        match r {
            Some(p) => i < p.1 <= b@.len() && dec_opt_str(b@.skip(i as int)) == Some(
                (p.0.deep_view(), b@.skip(p.1 as int)),
            ),
            None => dec_opt_str(b@.skip(i as int)) is None,
        },
{
    let (tag, i1) = match read_u8(b, i) {
        Option::Some(p) => p,
        Option::None => {
            return None;
        },
    };
    if tag == 0 {
        Some((None, i1))
    } else if tag == 1 {
        match read_string(b, i1) {
            Option::Some((s, i2)) => Some((Some(s), i2)),
            Option::None => None,
        }
    } else {
        None
    }
}

fn read_opt_u64(b: &Vec<u8>, i: usize) -> (r: Option<(Option<u64>, usize)>)
    requires
        i <= b@.len(),
    ensures
        match r {
            Some(p) => i < p.1 <= b@.len() && dec_opt_u64(b@.skip(i as int)) == Some(
                (p.0, b@.skip(p.1 as int)),
            ),
            None => dec_opt_u64(b@.skip(i as int)) is None,
        },
{
    let (tag, i1) = match read_u8(b, i) {
        Option::Some(p) => p,
        Option::None => {
            return None;
        },
    };
    if tag == 0 {
        Some((None, i1))
    } else if tag == 1 {
        match read_u64(b, i1) {
            Option::Some((n, i2)) => Some((Some(n), i2)),
            Option::None => None,
        }
    } else {
        None
    }
}

/// Decodes a record, or returns `None` where the bytes are not exactly the
/// encoding of one record.
#[verifier::loop_isolation(false)]
pub fn decode_user(b: &Vec<u8>) -> (r: Option<User>)
    ensures
        match r {
            Some(u) => spec_decode_user(b@) == Some(u@) && u.principal.wf(),
            None => spec_decode_user(b@) is None,
        },
{
    proof {
        assert(b@.skip(0) =~= b@);
    }
    let (klen, i0) = match read_u8(b, 0) {
        Option::Some(p) => p,
        Option::None => {
            return None;
        },
    };
    if klen as usize > MAX_IDENTITY_LEN {
        return None;
    }
    let (key, i1) = match read_chunk(b, i0, klen as usize) {
        Option::Some(p) => p,
        Option::None => {
            return None;
        },
    };
    let (username, i2) = match read_opt_string(b, i1) {
        Option::Some(p) => p,
        Option::None => {
            return None;
        },
    };
    let (logo_url, i3) = match read_opt_string(b, i2) {
        Option::Some(p) => p,
        Option::None => {
            return None;
        },
    };
    let (neuron_id, i4) = match read_opt_u64(b, i3) {
        Option::Some(p) => p,
        Option::None => {
            return None;
        },
    };
    let (count, i5) = match read_u32(b, i4) {
        Option::Some(p) => p,
        Option::None => {
            return None;
        },
    };
    let ghost rest5 = b@.skip(i5 as int);
    let mut topics: Vec<String> = Vec::new();
    let mut k: u32 = 0;
    let mut i6 = i5;
    while k < count
        invariant
            k <= count,
            i6 <= b@.len(),
            match dec_topics(rest5, count as nat) {
                Some(q) => dec_topics(b@.skip(i6 as int), (count - k) as nat) matches Some(q2)
                    && q.0 == topics.deep_view() + q2.0 && q.1 == q2.1,
                None => dec_topics(b@.skip(i6 as int), (count - k) as nat) is None,
            },
        decreases count - k,
    {
        let (s, inext) = match read_string(b, i6) {
            Option::Some(p) => p,
            Option::None => {
                return None;
            },
        };
        let ghost tdv = topics.deep_view();
        proof {
            let m = (count - k) as nat;
            assert(dec_topics(b@.skip(i6 as int), m) == (
            match dec_topics(b@.skip(inext as int), (m - 1) as nat) {
                Option::Some((l, r2)) => Some::<(Seq<Seq<char>>, Seq<u8>)>((seq![s@] + l, r2)),
                Option::None => None::<(Seq<Seq<char>>, Seq<u8>)>,
            }));
            match dec_topics(b@.skip(inext as int), (m - 1) as nat) {
                Option::Some(q2) => {
                    assert(tdv + (seq![s@] + q2.0) =~= tdv.push(s@) + q2.0);
                },
                Option::None => {},
            }
        }
        topics.push(s);
        proof {
            assert(topics.deep_view() =~= tdv.push(s@));
        }
        i6 = inext;
        k = k + 1;
    }
    proof {
        assert(topics.deep_view() + Seq::<Seq<char>>::empty() =~= topics.deep_view());
    }
    let (created_at, i7) = match read_u64(b, i6) {
        Option::Some(p) => p,
        Option::None => {
            return None;
        },
    };
    let (updated_at, i8) = match read_u64(b, i7) {
        Option::Some(p) => p,
        Option::None => {
            return None;
        },
    };
    if i8 != b.len() {
        return None;
    }
    let principal = match Identity::from_bytes(key) {
        Option::Some(id) => id,
        Option::None => {
            return None;
        },
    };
    Some(
        User {
            principal,
            username,
            logo_url,
            neuron_id,
            followed_topics: topics,
            created_at,
            updated_at,
        },
    )
}

// ----- length facts used to justify failing fast on oversized records -----

pub proof fn lemma_enc_topics_min_len(l: Seq<Seq<char>>)
    ensures
        enc_topics(l).len() >= 4 * l.len(),
    decreases l.len(),
{
    if l.len() > 0 {
        lemma_auto_spec_u32_to_from_le_bytes();
        lemma_enc_topics_min_len(l.drop_first());
    }
}

pub proof fn lemma_enc_topics_elem(l: Seq<Seq<char>>, i: int)
    requires
        0 <= i < l.len(),
    ensures
        enc_topics(l).len() >= enc_str(l[i]).len(),
    decreases l.len(),
{
    if i > 0 {
        lemma_enc_topics_elem(l.drop_first(), i - 1);
    }
}

pub proof fn lemma_enc_topics_snoc(l: Seq<Seq<char>>, x: Seq<char>)
    ensures
        enc_topics(l.push(x)) == enc_topics(l) + enc_str(x),
    decreases l.len(),
{
    if l.len() == 0 {
        assert(l.push(x)[0] == x);
        assert(l.push(x).drop_first() =~= Seq::<Seq<char>>::empty());
        assert(enc_topics(l.push(x)) == enc_str(x) + enc_topics(Seq::<Seq<char>>::empty()));
        assert(enc_topics(Seq::<Seq<char>>::empty()) == Seq::<u8>::empty());
        assert(enc_str(x) + Seq::<u8>::empty() =~= Seq::<u8>::empty() + enc_str(x));
        assert(enc_topics(l) =~= Seq::<u8>::empty());
    } else {
        assert(l.push(x).drop_first() =~= l.drop_first().push(x));
        lemma_enc_topics_snoc(l.drop_first(), x);
        assert(l.push(x)[0] == l[0]);
        assert(enc_topics(l.push(x)) == enc_str(l[0]) + (enc_topics(l.drop_first()) + enc_str(x)));
        assert(enc_str(l[0]) + (enc_topics(l.drop_first()) + enc_str(x)) =~= (enc_str(l[0])
            + enc_topics(l.drop_first())) + enc_str(x));
    }
}

/// A record whose encoding observes the size bound has every length field
/// within its four-byte prefix.
pub proof fn lemma_fits_from_bounded(u: UserView)
    requires
        spec_encode_user(u).len() <= MAX_VALUE_SIZE,
    ensures
        fits_u32(u),
{
    lemma_auto_spec_u32_to_from_le_bytes();
    lemma_auto_spec_u64_to_from_le_bytes();
    lemma_enc_topics_min_len(u.followed_topics);
    assert forall|i: int|
        0 <= i < u.followed_topics.len() implies encode_utf8(
        #[trigger] u.followed_topics[i],
    ).len() < 0x1_0000_0000 by {
        lemma_enc_topics_elem(u.followed_topics, i);
    }
}

// ----- the round trip: decoding an encoding yields the record back -----

proof fn lemma_dec_u8_enc(x: u8, r: Seq<u8>)
    ensures
        dec_u8(seq![x] + r) == Some((x, r)),
{
    assert((seq![x] + r)[0] == x);
    assert((seq![x] + r).skip(1) =~= r);
}

proof fn lemma_dec_u32_enc(x: u32, r: Seq<u8>)
    ensures
        dec_u32(spec_u32_to_le_bytes(x) + r) == Some((x, r)),
{
    lemma_auto_spec_u32_to_from_le_bytes();
    let b = spec_u32_to_le_bytes(x) + r;
    assert(b.take(4) =~= spec_u32_to_le_bytes(x));
    assert(b.skip(4) =~= r);
}

proof fn lemma_dec_u64_enc(x: u64, r: Seq<u8>)
    ensures
        dec_u64(spec_u64_to_le_bytes(x) + r) == Some((x, r)),
{
    lemma_auto_spec_u64_to_from_le_bytes();
    let b = spec_u64_to_le_bytes(x) + r;
    assert(b.take(8) =~= spec_u64_to_le_bytes(x));
    assert(b.skip(8) =~= r);
}

proof fn lemma_dec_raw_enc(bs: Seq<u8>, r: Seq<u8>)
    ensures
        dec_raw(bs + r, bs.len()) == Some((bs, r)),
{
    assert((bs + r).take(bs.len() as int) =~= bs);
    assert((bs + r).skip(bs.len() as int) =~= r);
}

proof fn lemma_dec_str_enc(s: Seq<char>, r: Seq<u8>)
    requires
        encode_utf8(s).len() < 0x1_0000_0000,
    ensures
        dec_str(enc_str(s) + r) == Some((s, r)),
{
    broadcast use vstd::utf8::encode_utf8_valid_utf8, vstd::utf8::encode_utf8_decode_utf8;

    lemma_auto_spec_u32_to_from_le_bytes();
    let n = encode_utf8(s).len() as u32;
    assert(enc_str(s) + r =~= spec_u32_to_le_bytes(n) + (encode_utf8(s) + r));
    lemma_dec_u32_enc(n, encode_utf8(s) + r);
    lemma_dec_raw_enc(encode_utf8(s), r);
}

proof fn lemma_dec_opt_str_enc(o: Option<Seq<char>>, r: Seq<u8>)
    requires
        o matches Some(s) ==> encode_utf8(s).len() < 0x1_0000_0000,
    ensures
        dec_opt_str(enc_opt_str(o) + r) == Some((o, r)),
{
    match o {
        Option::None => {
            lemma_dec_u8_enc(0, r);
        },
        Option::Some(s) => {
            assert(enc_opt_str(o) + r =~= seq![1u8] + (enc_str(s) + r));
            lemma_dec_u8_enc(1, enc_str(s) + r);
            lemma_dec_str_enc(s, r);
        },
    }
}

proof fn lemma_dec_opt_u64_enc(o: Option<u64>, r: Seq<u8>)
    ensures
        dec_opt_u64(enc_opt_u64(o) + r) == Some((o, r)),
{
    match o {
        Option::None => {
            lemma_dec_u8_enc(0, r);
        },
        Option::Some(n) => {
            assert(enc_opt_u64(o) + r =~= seq![1u8] + (spec_u64_to_le_bytes(n) + r));
            lemma_dec_u8_enc(1, spec_u64_to_le_bytes(n) + r);
            lemma_dec_u64_enc(n, r);
        },
    }
}

proof fn lemma_dec_topics_enc(l: Seq<Seq<char>>, r: Seq<u8>)
    requires
        forall|i: int|
            0 <= i < l.len() ==> encode_utf8(#[trigger] l[i]).len() < 0x1_0000_0000,
    ensures
        dec_topics(enc_topics(l) + r, l.len()) == Some((l, r)),
    decreases l.len(),
{
    if l.len() == 0 {
        assert(enc_topics(l) + r =~= r);
    } else {
        assert(enc_topics(l) + r =~= enc_str(l[0]) + (enc_topics(l.drop_first()) + r));
        lemma_dec_str_enc(l[0], enc_topics(l.drop_first()) + r);
        lemma_dec_topics_enc(l.drop_first(), r);
        assert(seq![l[0]] + l.drop_first() =~= l);
    }
}

/// The encoding is lossless: decoding the encoding of any well-formed record
/// whose length fields fit their prefixes yields the record itself.
#[verifier::rlimit(60)]
pub proof fn lemma_decode_encode_user(u: UserView)
    requires
        u.wf(),
        fits_u32(u),
    ensures
        spec_decode_user(spec_encode_user(u)) == Some(u),
{
    let rest7 = spec_u64_to_le_bytes(u.updated_at);
    let rest6 = spec_u64_to_le_bytes(u.created_at) + rest7;
    let rest5 = enc_topics(u.followed_topics) + rest6;
    let rest4 = spec_u32_to_le_bytes(u.followed_topics.len() as u32) + rest5;
    let rest3 = enc_opt_u64(u.neuron_id) + rest4;
    let rest2 = enc_opt_str(u.logo_url) + rest3;
    let rest1 = enc_opt_str(u.username) + rest2;
    let rest0 = u.principal + rest1;
    let b = spec_encode_user(u);
    assert(b =~= seq![u.principal.len() as u8] + rest0);
    lemma_dec_u8_enc(u.principal.len() as u8, rest0);
    lemma_dec_raw_enc(u.principal, rest1);
    lemma_dec_opt_str_enc(u.username, rest2);
    lemma_dec_opt_str_enc(u.logo_url, rest3);
    lemma_dec_opt_u64_enc(u.neuron_id, rest4);
    lemma_dec_u32_enc(u.followed_topics.len() as u32, rest5);
    lemma_dec_topics_enc(u.followed_topics, rest6);
    lemma_dec_u64_enc(u.created_at, rest7);
    assert(rest7 =~= spec_u64_to_le_bytes(u.updated_at) + Seq::<u8>::empty());
    lemma_dec_u64_enc(u.updated_at, Seq::<u8>::empty());
}

} // verus!
