//! Small verified helpers on strings and byte sequences.
use vstd::prelude::*;
use vstd::utf8::*;

verus! {

broadcast use vstd::utf8::encode_utf8_decode_utf8;

/// Compares two strings by their bytes; equal bytes mean equal characters.
pub fn str_eq(a: &str, b: &str) -> (r: bool)
    ensures
        r == (a@ == b@),
{
    let ab = a.as_bytes();
    let bb = b.as_bytes();
    proof {
        assert(decode_utf8(encode_utf8(a@)) == a@);
        assert(decode_utf8(encode_utf8(b@)) == b@);
    }
    if ab.len() != bb.len() {
        return false;
    }
    let mut i: usize = 0;
    while i < ab.len()
        invariant
            ab@ == encode_utf8(a@),
            bb@ == encode_utf8(b@),
            ab@.len() == bb@.len(),
            i <= ab@.len(),
            forall|j: int| 0 <= j < i ==> ab@[j] == bb@[j],
        decreases ab@.len() - i,
    {
        if ab[i] != bb[i] {
            return false;
        }
        i = i + 1;
    }
    assert(ab@ =~= bb@);
    true
}

/// Whether `prefix` is a prefix of `s`, character by character.
pub open spec fn seq_has_prefix<T>(s: Seq<T>, prefix: Seq<T>) -> bool {
    prefix.len() <= s.len() && s.subrange(0, prefix.len() as int) == prefix
}

/// Whether the string `s` starts with the string `prefix`.
pub fn str_starts_with(s: &str, prefix: &str) -> (r: bool)
    ensures
        r == seq_has_prefix(s@, prefix@),
{
    let sb = s.as_bytes();
    let pb = prefix.as_bytes();
    proof {
        assert(decode_utf8(encode_utf8(s@)) == s@);
        assert(decode_utf8(encode_utf8(prefix@)) == prefix@);
    }
    if pb.len() > sb.len() {
        proof {
            lemma_encode_prefix(s@, prefix@);
        }
        return false;
    }
    let mut i: usize = 0;
    while i < pb.len()
        invariant
            sb@ == encode_utf8(s@),
            pb@ == encode_utf8(prefix@),
            pb@.len() <= sb@.len(),
            i <= pb@.len(),
            forall|j: int| 0 <= j < i ==> sb@[j] == pb@[j],
        decreases pb@.len() - i,
    {
        if sb[i] != pb[i] {
            proof {
                lemma_encode_prefix(s@, prefix@);
            }
            return false;
        }
        i = i + 1;
    }
    proof {
        assert(sb@.subrange(0, pb@.len() as int) =~= pb@);
        lemma_encode_prefix(s@, prefix@);
    }
    true
}

/// The encoding of a prefix is a prefix of the encoding, and conversely.
pub proof fn lemma_encode_prefix(s: Seq<char>, p: Seq<char>)
    ensures
        seq_has_prefix(s, p) <==> seq_has_prefix(encode_utf8(s), encode_utf8(p)),
    decreases s.len(),
{
    if p.len() == 0 {
        assert(s.subrange(0, 0) =~= p);
        assert(encode_utf8(s).subrange(0, 0) =~= encode_utf8(p));
    } else if s.len() == 0 {
        assert(encode_utf8(p).len() > 0) by {
            lemma_encode_len_pos(p);
        }
    } else {
        lemma_encode_prefix(s.drop_first(), p.drop_first());
        let es = encode_utf8(s);
        let ep = encode_utf8(p);
        let cs = encode_scalar(s[0] as u32);
        let cp = encode_scalar(p[0] as u32);
        assert(es == cs + encode_utf8(s.drop_first()));
        assert(ep == cp + encode_utf8(p.drop_first()));
        if seq_has_prefix(s, p) {
            assert(s[0] == p[0]) by {
                assert(s.subrange(0, p.len() as int)[0] == p[0]);
            }
            assert(s.drop_first().subrange(0, p.drop_first().len() as int) =~= p.drop_first()) by {
                assert forall|k: int| 0 <= k < p.len() - 1 implies s.drop_first()[k] == p.drop_first()[k] by {
                    assert(s.subrange(0, p.len() as int)[k + 1] == p[k + 1]);
                }
            }
            assert(es.subrange(0, ep.len() as int) =~= ep) by {
                let rs = encode_utf8(s.drop_first());
                let rp = encode_utf8(p.drop_first());
                assert(rs.subrange(0, rp.len() as int) == rp);
                assert forall|k: int| 0 <= k < ep.len() implies es[k] == ep[k] by {
                    if k < cs.len() {
                    } else {
                        assert(rs.subrange(0, rp.len() as int)[k - cs.len()] == rp[k - cs.len()]);
                    }
                }
            }
        }
        if seq_has_prefix(es, ep) {
            // the first scalars decode to the same character
            lemma_first_scalar_prefix(s, p);
            assert(s[0] == p[0]);
            let rs = encode_utf8(s.drop_first());
            let rp = encode_utf8(p.drop_first());
            assert(rs.subrange(0, rp.len() as int) =~= rp) by {
                assert forall|k: int| 0 <= k < rp.len() implies rs[k] == rp[k] by {
                    assert(es.subrange(0, ep.len() as int)[k + cs.len()] == ep[k + cs.len()]);
                }
            }
            assert(s.subrange(0, p.len() as int) =~= p) by {
                assert forall|k: int| 0 <= k < p.len() implies s[k] == p[k] by {
                    if k > 0 {
                        assert(s.drop_first().subrange(0, p.drop_first().len() as int)[k - 1]
                            == p.drop_first()[k - 1]);
                    }
                }
            }
        }
    }
}

proof fn lemma_encode_len_pos(p: Seq<char>)
    requires
        p.len() > 0,
    ensures
        encode_utf8(p).len() > 0,
{
    assert(encode_utf8(p) == encode_scalar(p[0] as u32) + encode_utf8(p.drop_first()));
}

/// If one encoding is a prefix of another, their first characters agree.
proof fn lemma_first_scalar_prefix(s: Seq<char>, p: Seq<char>)
    requires
        s.len() > 0,
        p.len() > 0,
        seq_has_prefix(encode_utf8(s), encode_utf8(p)),
    ensures
        s[0] == p[0],
        encode_scalar(s[0] as u32) == encode_scalar(p[0] as u32),
{
    let es = encode_utf8(s);
    let ep = encode_utf8(p);
    encode_utf8_first_scalar(s);
    encode_utf8_first_scalar(p);
    char_is_scalar(s[0]);
    char_is_scalar(p[0]);
    let n = length_of_first_scalar(ep);
    assert(es.subrange(0, ep.len() as int) == ep);
    // the leading byte fixes the width, so the first scalars occupy the same bytes
    assert(es[0] == ep[0]) by {
        assert(es.subrange(0, ep.len() as int)[0] == ep[0]);
    }
    assert forall|k: int| 0 <= k < n implies es[k] == ep[k] by {
        assert(es.subrange(0, ep.len() as int)[k] == ep[k]);
    }
    assert(decode_first_scalar(es) == decode_first_scalar(ep));
    char_u32_cast(s[0], decode_first_scalar(es));
    char_u32_cast(p[0], decode_first_scalar(ep));
}

} // verus!
