//! The built-in tokenizer: splits a document's bytes on everything that
//! is not an ASCII letter or digit, lowercases letters, caps each token
//! at a fixed byte length, and hashes tokens to 32 bits (FNV-1a).

use vstd::prelude::*;

verus! {

/// The byte cap applied to every token.
pub const TOKEN_LENGTH_CAP: usize = 40;

pub open spec fn spec_is_word_byte(b: u8) -> bool {
    (97 <= b <= 122) || (48 <= b <= 57) || (65 <= b <= 90)
}

pub open spec fn spec_lower(b: u8) -> u8 {
    if 65 <= b <= 90 {
        (b + 32) as u8
    } else {
        b
    }
}

/// The tokens of a byte run, given the token collected so far.
pub open spec fn spec_tokens_acc(s: Seq<u8>, cur: Seq<u8>) -> Seq<Seq<u8>>
    decreases s.len(),
{
    if s.len() == 0 {
        if cur.len() > 0 {
            seq![cur]
        } else {
            Seq::empty()
        }
    } else if spec_is_word_byte(s[0]) {
        let cur2 = if cur.len() < TOKEN_LENGTH_CAP {
            cur.push(spec_lower(s[0]))
        } else {
            cur
        };
        spec_tokens_acc(s.skip(1), cur2)
    } else if cur.len() > 0 {
        seq![cur] + spec_tokens_acc(s.skip(1), Seq::empty())
    } else {
        spec_tokens_acc(s.skip(1), Seq::empty())
    }
}

/// The tokens of a document's bytes.
pub open spec fn spec_tokens(s: Seq<u8>) -> Seq<Seq<u8>> {
    spec_tokens_acc(s, Seq::empty())
}

/// The 32-bit FNV-1a hash of a token.
pub open spec fn spec_hash32(s: Seq<u8>) -> u32
    decreases s.len(),
{
    if s.len() == 0 {
        0x811c9dc5u32
    } else {
        (((spec_hash32(s.drop_last()) ^ (s.last() as u32)) as u64 * 0x01000193) % 0x1_0000_0000)
            as u32
    }
}

/// The token hashes of a document, in order.
pub open spec fn spec_token_hashes(s: Seq<u8>) -> Seq<u32> {
    spec_tokens(s).map_values(|t: Seq<u8>| spec_hash32(t))
}

/// Hashes one token.
pub fn hash32(token: &Vec<u8>) -> (r: u32)
    ensures
        r == spec_hash32(token@),
{
    let mut h: u32 = 0x811c9dc5;
    let mut i: usize = 0;
    while i < token.len()
        invariant
            i <= token@.len(),
            h == spec_hash32(token@.take(i as int)),
        decreases token@.len() - i,
    {
        let x = (h ^ (token[i] as u32)) as u64 * 0x01000193;
        let h2 = (x % 0x1_0000_0000) as u32;
        proof {
            assert(token@.take(i + 1).drop_last() =~= token@.take(i as int));
            assert(token@.take(i + 1).last() == token@[i as int]);
        }
        h = h2;
        i += 1;
    }
    proof {
        assert(token@.take(token@.len() as int) =~= token@);
    }
    h
}

/// Splits a document's bytes into its tokens.
pub fn tokenize(text: &Vec<u8>) -> (r: Vec<Vec<u8>>)
    ensures
        r@.map_values(|t: Vec<u8>| t@) == spec_tokens(text@),
{
    let mut done: Vec<Vec<u8>> = Vec::new();
    let mut cur: Vec<u8> = Vec::new();
    let mut i: usize = 0;
    proof {
        assert(text@.skip(0) =~= text@);
    }
    while i < text.len()
        invariant
            i <= text@.len(),
            cur@.len() <= TOKEN_LENGTH_CAP,
            spec_tokens(text@) == done@.map_values(|t: Vec<u8>| t@) + spec_tokens_acc(
                text@.skip(i as int),
                cur@,
            ),
        decreases text@.len() - i,
    {
        let b = text[i];
        let ghost pre_done = done@;
        let ghost pre_cur = cur@;
        proof {
            assert(text@.skip(i as int)[0] == text@[i as int]);
            assert(text@.skip(i as int).skip(1) =~= text@.skip(i + 1));
        }
        if (b >= 97 && b <= 122) || (b >= 48 && b <= 57) || (b >= 65 && b <= 90) {
            let lb = if b >= 65 && b <= 90 {
                b + 32
            } else {
                b
            };
            if cur.len() < TOKEN_LENGTH_CAP {
                cur.push(lb);
            }
            proof {
                assert(spec_is_word_byte(text@[i as int]));
                assert(lb == spec_lower(text@[i as int]));
                assert(spec_tokens_acc(text@.skip(i as int), pre_cur) == spec_tokens_acc(
                    text@.skip(i + 1),
                    cur@,
                ));
                assert(spec_tokens(text@) == done@.map_values(|t: Vec<u8>| t@)
                    + spec_tokens_acc(text@.skip(i + 1), cur@)) by {
                    assert(done@ == pre_done);
                }
            }
        } else {
            proof {
                assert(!spec_is_word_byte(text@[i as int]));
                if pre_cur.len() == 0 {
                    assert(spec_tokens_acc(text@.skip(i as int), pre_cur) == spec_tokens_acc(
                        text@.skip(i + 1),
                        Seq::<u8>::empty(),
                    ));
                } else {
                    assert(spec_tokens_acc(text@.skip(i as int), pre_cur) == seq![pre_cur]
                        + spec_tokens_acc(text@.skip(i + 1), Seq::<u8>::empty()));
                }
            }
            if cur.len() > 0 {
                let mut finished: Vec<u8> = Vec::new();
                core::mem::swap(&mut finished, &mut cur);
                done.push(finished);
                proof {
                    assert(done@.map_values(|t: Vec<u8>| t@) =~= pre_done.map_values(
                        |t: Vec<u8>| t@,
                    ).push(pre_cur));
                    assert(pre_done.map_values(|t: Vec<u8>| t@) + (seq![pre_cur]
                        + spec_tokens_acc(text@.skip(i + 1), Seq::empty())) =~= done@.map_values(
                        |t: Vec<u8>| t@,
                    ) + spec_tokens_acc(text@.skip(i + 1), Seq::empty()));
                    assert(cur@ =~= Seq::<u8>::empty());
                    assert(spec_tokens(text@) == done@.map_values(|t: Vec<u8>| t@)
                        + spec_tokens_acc(text@.skip(i + 1), cur@));
                }
            } else {
                proof {
                    assert(cur@ == pre_cur);
                    assert(pre_cur =~= Seq::<u8>::empty());
                    assert(spec_tokens(text@) == done@.map_values(|t: Vec<u8>| t@)
                        + spec_tokens_acc(text@.skip(i + 1), cur@)) by {
                        assert(done@ == pre_done);
                        assert(pre_cur =~= Seq::<u8>::empty());
                    }
                }
            }
        }
        proof {
            assert(spec_tokens(text@) == done@.map_values(|t: Vec<u8>| t@) + spec_tokens_acc(
                text@.skip(i + 1),
                cur@,
            ));
        }
        i += 1;
    }
    proof {
        assert(text@.skip(text@.len() as int) =~= Seq::<u8>::empty());
    }
    if cur.len() > 0 {
        let ghost pre_done = done@;
        let ghost pre_cur = cur@;
        done.push(cur);
        proof {
            assert(done@.map_values(|t: Vec<u8>| t@) =~= pre_done.map_values(
                |t: Vec<u8>| t@,
            ).push(pre_cur));
            assert(spec_tokens_acc(Seq::<u8>::empty(), pre_cur) =~= seq![pre_cur]);
            assert(pre_done.map_values(|t: Vec<u8>| t@) + seq![pre_cur] =~= done@.map_values(
                |t: Vec<u8>| t@,
            ));
        }
        return done;
    }
    proof {
        assert(spec_tokens_acc(Seq::<u8>::empty(), Seq::<u8>::empty()) =~= Seq::<Seq<u8>>::empty());
        assert(done@.map_values(|t: Vec<u8>| t@) + Seq::<Seq<u8>>::empty() =~= done@.map_values(
            |t: Vec<u8>| t@,
        ));
    }
    done
}

/// The number of tokens of a document; the sampling phase feeds
/// average-document-length from it.
pub fn count_tokens(text: &Vec<u8>) -> (r: usize)
    ensures
        r == spec_tokens(text@).len(),
{
    let tokens = tokenize(text);
    proof {
        assert(tokens@.map_values(|t: Vec<u8>| t@).len() == tokens@.len());
    }
    tokens.len()
}

/// The token hashes of a document, in order.
pub fn token_hashes(text: &Vec<u8>) -> (r: Vec<u32>)
    ensures
        r@ == spec_token_hashes(text@),
{
    let tokens = tokenize(text);
    let mut r: Vec<u32> = Vec::new();
    let mut i: usize = 0;
    while i < tokens.len()
        invariant
            i <= tokens@.len(),
            tokens@.map_values(|t: Vec<u8>| t@) == spec_tokens(text@),
            r@ == spec_token_hashes(text@).take(i as int),
        decreases tokens@.len() - i,
    {
        let h = hash32(&tokens[i]);
        r.push(h);
        proof {
            assert(spec_token_hashes(text@)[i as int] == spec_hash32(
                tokens@.map_values(|t: Vec<u8>| t@)[i as int],
            ));
            assert(r@ =~= spec_token_hashes(text@).take(i + 1));
        }
        i += 1;
    }
    proof {
        assert(spec_token_hashes(text@).take(spec_token_hashes(text@).len() as int)
            =~= spec_token_hashes(text@));
    }
    r
}

} // verus!
