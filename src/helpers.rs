use vstd::prelude::*;
use vstd::string::StringExecFns;
use vstd::utf8::encode_utf8;

verus! {

pub const MURMUR_M: u32 = 0x5bd1e995;

/// The product of two 32-bit words, kept to its low 32 bits.
pub open spec fn umul32(a: u32, b: u32) -> u32 {
    ((a as nat * b as nat) % 0x1_0000_0000) as u32
}

/// The little-endian word at `p`.
pub open spec fn word_at(b: Seq<u8>, p: int) -> u32 {
    (b[p] as u32) | ((b[p + 1] as u32) << 8u32) | ((b[p + 2] as u32) << 16u32) | ((
    b[p + 3] as u32) << 24u32)
}

/// The little-endian half word at `p`.
pub open spec fn half_at(b: Seq<u8>, p: int) -> u32 {
    (b[p] as u32) | ((b[p + 1] as u32) << 8u32)
}

pub open spec fn mix(k: u32) -> u32 {
    let k1 = umul32(k, MURMUR_M);
    let k2 = k1 ^ (k1 >> 24u32);
    umul32(k2, MURMUR_M)
}

/// The state after the first `n` four-byte blocks.
pub open spec fn blocks(b: Seq<u8>, h: u32, n: nat) -> u32
    decreases n,
{
    if n == 0 {
        h
    } else {
        umul32(blocks(b, h, (n - 1) as nat), MURMUR_M) ^ mix(word_at(b, 4 * (n - 1)))
    }
}

/// The state after the one to three bytes that follow the last block.
pub open spec fn tail(b: Seq<u8>, h: u32) -> u32 {
    let base = 4 * (b.len() / 4) as int;
    let rem = b.len() % 4;
    if rem == 3 {
        umul32(h ^ half_at(b, base) ^ ((b[base + 2] as u32) << 16u32), MURMUR_M)
    } else if rem == 2 {
        umul32(h ^ half_at(b, base), MURMUR_M)
    } else if rem == 1 {
        umul32(h ^ (b[base] as u32), MURMUR_M)
    } else {
        h
    }
}

pub open spec fn finish(h: u32) -> u32 {
    let h1 = h ^ (h >> 13u32);
    let h2 = umul32(h1, MURMUR_M);
    h2 ^ (h2 >> 15u32)
}

/// MurmurHash2 of the bytes with the given seed.
pub open spec fn murmur2(b: Seq<u8>, seed: u32) -> u32 {
    finish(tail(b, blocks(b, seed ^ (b.len() as u32), b.len() / 4)))
}

fn umul(a: u32, b: u32) -> (r: u32)
    ensures
        r == umul32(a, b),
{
    assert(a as nat * b as nat <= 0xffff_ffff * 0xffff_ffff) by (nonlinear_arith);
    ((a as u64 * b as u64) % 0x1_0000_0000) as u32
}

/// MurmurHash2 of the UTF-8 bytes of `s`.
pub fn do_hash(s: &str, seed: u32) -> (r: u32)
    ensures
        r == murmur2(encode_utf8(s@), seed),
{
    let b = s.as_bytes();
    let len = b.len();
    let mut h: u32 = seed ^ (len as u32);
    let mut pos: usize = 0;
    while len - pos >= 4
        invariant
            len == b@.len(),
            pos <= len,
            pos % 4 == 0,
            h == blocks(b@, seed ^ (len as u32), (pos / 4) as nat),
        decreases len - pos,
    {
        let k = (b[pos] as u32) | ((b[pos + 1] as u32) << 8u32) | ((b[pos + 2] as u32) << 16u32)
            | ((b[pos + 3] as u32) << 24u32);
        h = umul(h, MURMUR_M) ^ mix_exec(k);
        pos = pos + 4;
        assert((pos / 4 - 1) as nat == ((pos - 4) / 4) as nat);
    }
    assert(pos == 4 * (len / 4));
    let rem = len - pos;
    if rem == 3 {
        h = umul(h ^ ((b[pos] as u32) | ((b[pos + 1] as u32) << 8u32)) ^ ((b[pos + 2] as u32) << 16u32), MURMUR_M);
    } else if rem == 2 {
        h = umul(h ^ ((b[pos] as u32) | ((b[pos + 1] as u32) << 8u32)), MURMUR_M);
    } else if rem == 1 {
        h = umul(h ^ (b[pos] as u32), MURMUR_M);
    }
    h = h ^ (h >> 13u32);
    h = umul(h, MURMUR_M);
    h ^ (h >> 15u32)
}

fn mix_exec(k: u32) -> (r: u32)
    ensures
        r == mix(k),
{
    let k1 = umul(k, MURMUR_M);
    let k2 = k1 ^ (k1 >> 24u32);
    umul(k2, MURMUR_M)
}

pub open spec fn digit_chars() -> Seq<char> {
    seq![
        '0', '1', '2', '3', '4', '5', '6', '7', '8', '9', 'a', 'b', 'c', 'd', 'e', 'f', 'g', 'h',
        'i', 'j', 'k', 'l', 'm', 'n', 'o', 'p', 'q', 'r', 's', 't', 'u', 'v', 'w', 'x', 'y', 'z',
    ]
}

/// The base-36 digits of `x`, most significant first, in lower case.
pub open spec fn base36(x: nat) -> Seq<char>
    decreases x,
{
    if x < 36 {
        seq![digit_chars()[x as int]]
    } else {
        base36(x / 36).push(digit_chars()[(x % 36) as int])
    }
}

/// `x` written in base 36.
pub fn format_36(x: u32) -> (r: String)
    ensures
        r@ == base36(x as nat),
{
    let digits = "0123456789abcdefghijklmnopqrstuvwxyz";
    proof {
        reveal_strlit("0123456789abcdefghijklmnopqrstuvwxyz");
        assert(digits@ =~= digit_chars());
    }
    let mut rev: Vec<usize> = Vec::new();
    let mut y: u32 = x;
    let ghost mut rest: nat = x as nat;
    loop
        invariant_except_break
            y as nat == rest,
            rest <= x,
            forall|k: int| 0 <= k < rev@.len() ==> #[trigger] rev@[k] < 36,
            base36(x as nat) == base36(rest) + rev_digits(rev@),
        ensures
            forall|k: int| 0 <= k < rev@.len() ==> #[trigger] rev@[k] < 36,
            base36(x as nat) == rev_digits(rev@),
        decreases y,
    {
        let m = (y % 36) as usize;
        proof {
            if rest >= 36 {
                assert(base36(rest) == base36(rest / 36).push(digit_chars()[(rest % 36) as int]));
            }
        }
        let ghost old_rev = rev@;
        rev.push(m);
        proof {
            assert(rev_digits(rev@) == seq![digit_chars()[m as int]] + rev_digits(old_rev)) by {
                assert(rev@.drop_last() =~= old_rev);
            }
        }
        if y < 36 {
            proof {
                assert(base36(rest) =~= seq![digit_chars()[m as int]]);
                assert(base36(x as nat) =~= rev_digits(rev@));
            }
            break;
        }
        y = y / 36;
        proof {
            assert(base36(rest) =~= base36(rest / 36) + seq![digit_chars()[m as int]]);
            assert(base36(x as nat) =~= base36(rest / 36) + rev_digits(rev@));
            rest = rest / 36;
        }
    }
    let mut out = String::new();
    let n = rev.len();
    let mut k: usize = n;
    while k > 0
        invariant
            n == rev@.len(),
            k <= n,
            digits@ == digit_chars(),
            forall|j: int| 0 <= j < rev@.len() ==> #[trigger] rev@[j] < 36,
            out@ == rev_digits(rev@.subrange(k as int, n as int)),
        decreases k,
    {
        k = k - 1;
        let d = rev[k];
        let c = digits.substring_char(d, d + 1);
        out.append(c);
        proof {
            let tail_now = rev@.subrange(k as int, n as int);
            assert(tail_now.drop_first() =~= rev@.subrange(k + 1, n as int));
            lemma_rev_digits_first(tail_now);
            assert(c@ =~= seq![digit_chars()[d as int]]);
        }
    }
    proof {
        assert(rev@.subrange(0, n as int) =~= rev@);
    }
    out
}

/// Digits stored least significant first, written most significant first.
pub open spec fn rev_digits(r: Seq<usize>) -> Seq<char>
    decreases r.len(),
{
    if r.len() == 0 {
        Seq::empty()
    } else {
        seq![digit_chars()[r.last() as int]] + rev_digits(r.drop_last())
    }
}

proof fn lemma_rev_digits_first(r: Seq<usize>)
    requires
        r.len() > 0,
    ensures
        rev_digits(r) == rev_digits(r.drop_first()) + seq![digit_chars()[r[0] as int]],
    decreases r.len(),
{
    if r.len() == 1 {
        assert(r.drop_first() =~= Seq::<usize>::empty());
        assert(r.drop_last() =~= Seq::<usize>::empty());
        assert(rev_digits(r.drop_last()) == Seq::<char>::empty());
        assert(rev_digits(r.drop_first()) == Seq::<char>::empty());
        assert(r.last() == r[0]);
        assert(rev_digits(r) =~= seq![digit_chars()[r[0] as int]]);
    } else {
        lemma_rev_digits_first(r.drop_last());
        assert(r.drop_last().drop_first() =~= r.drop_first().drop_last());
        assert(r.drop_first().last() == r.last());
        assert(rev_digits(r) =~= rev_digits(r.drop_first()) + seq![digit_chars()[r[0] as int]]);
    }
}

/// Relies on `std::path::MAIN_SEPARATOR_STR`: the platform's path separator,
/// `/` or `\`.
#[verifier::external_body]
fn main_separator() -> (r: &'static str)
    ensures
        r@ == seq!['/'] || r@ == seq!['\\'],
{
    std::path::MAIN_SEPARATOR_STR
}

/// `p` with each backslash replaced by `sep`.
pub open spec fn with_separator(p: Seq<char>, sep: char) -> Seq<char> {
    p.map_values(|c: char| if c == '\\' { sep } else { c })
}

/// The path with each backslash written as the platform's separator.
pub fn normalize_path(path: &str) -> (r: String)
    ensures
        r@ == with_separator(path@, '/') || r@ == with_separator(path@, '\\'),
{
    let sep = main_separator();
    let ghost sc = sep@[0];
    let n = path.unicode_len();
    let mut out = String::new();
    let mut i: usize = 0;
    while i < n
        invariant
            n == path@.len(),
            i <= n,
            sep@ == seq![sc],
            sc == '/' || sc == '\\',
            out@ == with_separator(path@.subrange(0, i as int), sc),
        decreases n - i,
    {
        let c = path.get_char(i);
        if c == '\\' {
            out.append(sep);
        } else {
            out.append(path.substring_char(i, i + 1));
        }
        assert(with_separator(path@.subrange(0, i + 1), sc) =~= with_separator(
            path@.subrange(0, i as int),
            sc,
        ).push(if c == '\\' { sc } else { c }));
        i = i + 1;
    }
    assert(path@.subrange(0, n as int) =~= path@);
    out
}

/// A short class-name slug for a piece of code: its MurmurHash2 with seed 0,
/// in base 36.
pub fn slugify(code: &str) -> (r: String)
    ensures
        r@ == base36(murmur2(encode_utf8(code@), 0) as nat),
{
    let hash = do_hash(code, 0);
    format_36(hash)
}

} // verus!
