use vstd::prelude::*;
use vstd::string::StringExecFns;

use crate::bundle::{priority_code, priority_code_spec, Priority};

verus! {

/// The BLAKE3 digest (32 bytes) of an input, as `blake3::hash` computes it.
pub uninterp spec fn blake3_hash(input: Seq<u8>) -> Seq<u8>;

/// Calls `blake3::hash` and returns the raw digest bytes (`Hash::as_bytes`).
/// Trusted: the 32 bytes returned are `blake3_hash` of the input; nothing
/// more is claimed of the digest.
#[verifier::external_body]
fn blake3_digest(input: &[u8]) -> (digest: [u8; 32])
    ensures
        digest@ == blake3_hash(input@),
{
    *blake3::hash(input).as_bytes()
}

/// The `n` low-order base-256 digits of `x`, most significant first.
pub open spec fn be_bytes(x: nat, n: nat) -> Seq<u8>
    decreases n,
{
    if n == 0 {
        Seq::empty()
    } else {
        be_bytes(x / 256, (n - 1) as nat).push((x % 256) as u8)
    }
}

/// The lowercase hexadecimal digit of a nibble.
pub open spec fn hex_digit(nibble: u8) -> char {
    seq!['0', '1', '2', '3', '4', '5', '6', '7', '8', '9', 'a', 'b', 'c', 'd', 'e', 'f'][nibble as int]
}

/// A character of `0-9` or `a-f`.
pub open spec fn is_lower_hex_digit(c: char) -> bool {
    ('0' <= c && c <= '9') || ('a' <= c && c <= 'f')
}

/// Lowercase hexadecimal encoding, high nibble first.
pub open spec fn hex_lower(bytes: Seq<u8>) -> Seq<char>
    decreases bytes.len(),
{
    if bytes.len() == 0 {
        Seq::empty()
    } else {
        seq![hex_digit(bytes[0] / 16), hex_digit(bytes[0] % 16)] + hex_lower(bytes.drop_first())
    }
}

/// The bytes hashed to identify a bundle: creation and expiry instants,
/// hop limit, priority code, payload length (each integer big-endian),
/// the random entropy, then the payload itself.
pub open spec fn id_preimage(
    created_at_ms: u64,
    expires_at_ms: u64,
    hop_limit: u8,
    priority: Priority,
    payload: Seq<u8>,
    entropy: Seq<u8>,
) -> Seq<u8> {
    be_bytes(created_at_ms as nat, 8) + be_bytes(expires_at_ms as nat, 8) + seq![
        hop_limit,
        priority_code_spec(priority),
    ] + be_bytes(payload.len(), 8) + entropy + payload
}

/// A bundle identifier: the first 24 characters of the lowercase hex
/// encoding of the BLAKE3 digest of the identifier preimage.
pub open spec fn bundle_id_spec(
    created_at_ms: u64,
    expires_at_ms: u64,
    hop_limit: u8,
    priority: Priority,
    payload: Seq<u8>,
    entropy: Seq<u8>,
) -> Seq<char> {
    hex_lower(
        blake3_hash(id_preimage(created_at_ms, expires_at_ms, hop_limit, priority, payload, entropy)),
    ).take(24)
}

/// Appends the `n` low-order big-endian base-256 digits of `x`.
fn push_be_bytes(out: &mut Vec<u8>, x: u64, n: usize)
    ensures
        final(out)@ == old(out)@ + be_bytes(x as nat, n as nat),
    decreases n,
{
    if n > 0 {
        push_be_bytes(out, x / 256, n - 1);
        out.push((x % 256) as u8);
        assert(final(out)@ =~= old(out)@ + be_bytes(x as nat, n as nat));
    } else {
        assert(final(out)@ =~= old(out)@ + be_bytes(x as nat, n as nat));
    }
}

fn push_all(out: &mut Vec<u8>, src: &[u8])
    ensures
        final(out)@ == old(out)@ + src@,
{
    let mut i: usize = 0;
    while i < src.len()
        invariant
            i <= src@.len(),
            out@ == old(out)@ + src@.take(i as int),
        decreases src@.len() - i,
    {
        out.push(src[i]);
        i = i + 1;
        assert(out@ =~= old(out)@ + src@.take(i as int));
    }
    assert(src@.take(i as int) =~= src@);
}

/// Builds the identifier preimage of a bundle (see `id_preimage`).
pub fn build_id_preimage(
    created_at_ms: u64,
    expires_at_ms: u64,
    hop_limit: u8,
    priority: Priority,
    payload: &[u8],
    entropy: &[u8; 16],
) -> (preimage: Vec<u8>)
    ensures
        preimage@ == id_preimage(created_at_ms, expires_at_ms, hop_limit, priority, payload@, entropy@),
{
    let mut out: Vec<u8> = Vec::new();
    push_be_bytes(&mut out, created_at_ms, 8);
    push_be_bytes(&mut out, expires_at_ms, 8);
    out.push(hop_limit);
    out.push(priority_code(priority));
    push_be_bytes(&mut out, payload.len() as u64, 8);
    push_all(&mut out, entropy.as_slice());
    push_all(&mut out, payload);
    assert(out@ =~= id_preimage(created_at_ms, expires_at_ms, hop_limit, priority, payload@, entropy@));
    out
}

fn hex_digit_str(nibble: u8) -> (s: &'static str)
    requires
        nibble < 16,
    ensures
        s@ == seq![hex_digit(nibble)],
{
    proof {
        reveal_strlit("0");
        reveal_strlit("1");
        reveal_strlit("2");
        reveal_strlit("3");
        reveal_strlit("4");
        reveal_strlit("5");
        reveal_strlit("6");
        reveal_strlit("7");
        reveal_strlit("8");
        reveal_strlit("9");
        reveal_strlit("a");
        reveal_strlit("b");
        reveal_strlit("c");
        reveal_strlit("d");
        reveal_strlit("e");
        reveal_strlit("f");
    }
    let s = match nibble {
        0 => "0",
        1 => "1",
        2 => "2",
        3 => "3",
        4 => "4",
        5 => "5",
        6 => "6",
        7 => "7",
        8 => "8",
        9 => "9",
        10 => "a",
        11 => "b",
        12 => "c",
        13 => "d",
        14 => "e",
        _ => "f",
    };
    assert(s@ =~= seq![hex_digit(nibble)]);
    s
}

proof fn lemma_hex_lower_push(bytes: Seq<u8>, b: u8)
    ensures
        hex_lower(bytes.push(b)) == hex_lower(bytes) + seq![hex_digit(b / 16), hex_digit(b % 16)],
    decreases bytes.len(),
{
    if bytes.len() == 0 {
        assert(bytes.push(b).drop_first() =~= Seq::<u8>::empty());
        assert(hex_lower(Seq::<u8>::empty()) =~= Seq::<char>::empty());
        assert(hex_lower(bytes.push(b)) =~= seq![hex_digit(b / 16), hex_digit(b % 16)]);
    } else {
        assert(bytes.push(b).drop_first() =~= bytes.drop_first().push(b));
        lemma_hex_lower_push(bytes.drop_first(), b);
        assert(hex_lower(bytes.push(b)) =~= hex_lower(bytes) + seq![hex_digit(b / 16), hex_digit(b % 16)]);
    }
}

/// Lowercase hex encoding uses only the digits `0-9a-f`.
pub proof fn lemma_hex_lower_digits(bytes: Seq<u8>)
    ensures
        forall|i: int| 0 <= i < hex_lower(bytes).len() ==> is_lower_hex_digit(#[trigger] hex_lower(bytes)[i]),
    decreases bytes.len(),
{
    if bytes.len() > 0 {
        lemma_hex_lower_digits(bytes.drop_first());
        let b = bytes[0];
        let head = seq![hex_digit(b / 16), hex_digit(b % 16)];
        assert(is_lower_hex_digit(hex_digit(b / 16)) && is_lower_hex_digit(hex_digit(b % 16))) by {
            assert(b / 16 < 16 && b % 16 < 16);
        }
        assert forall|i: int| 0 <= i < hex_lower(bytes).len() implies is_lower_hex_digit(#[trigger] hex_lower(bytes)[i]) by {
            if i >= 2 {
                assert(hex_lower(bytes)[i] == hex_lower(bytes.drop_first())[i - 2]);
            } else {
                assert(hex_lower(bytes)[i] == head[i]);
            }
        }
    }
}

/// Hex encoding of a prefix is the matching prefix of the hex encoding.
pub proof fn lemma_hex_lower_take(bytes: Seq<u8>, k: nat)
    requires
        k <= bytes.len(),
    ensures
        hex_lower(bytes).take((2 * k) as int) == hex_lower(bytes.take(k as int)),
        hex_lower(bytes).len() == 2 * bytes.len(),
    decreases bytes.len(),
{
    if bytes.len() == 0 {
        assert(hex_lower(bytes).take(0) =~= Seq::<char>::empty());
        assert(bytes.take(0) =~= Seq::<u8>::empty());
    } else if k == 0 {
        lemma_hex_lower_take(bytes.drop_first(), 0);
        assert(bytes.take(0) =~= Seq::<u8>::empty());
        assert(hex_lower(bytes).take(0) =~= hex_lower(Seq::<u8>::empty()));
    } else {
        lemma_hex_lower_take(bytes.drop_first(), (k - 1) as nat);
        assert(bytes.take(k as int).drop_first() =~= bytes.drop_first().take(k - 1));
        assert(hex_lower(bytes).take((2 * k) as int) =~= hex_lower(bytes.take(k as int)));
    }
}

/// Lowercase hex encoding of the first `count` bytes.
pub fn hex_prefix(bytes: &[u8], count: usize) -> (hex: String)
    requires
        count <= bytes@.len(),
    ensures
        hex@ == hex_lower(bytes@.take(count as int)),
{
    let mut out = String::new();
    let mut i: usize = 0;
    while i < count
        invariant
            i <= count <= bytes@.len(),
            out@ == hex_lower(bytes@.take(i as int)),
        decreases count - i,
    {
        let b = bytes[i];
        out.append(hex_digit_str(b / 16));
        out.append(hex_digit_str(b % 16));
        proof {
            assert(bytes@.take(i + 1) =~= bytes@.take(i as int).push(b));
            lemma_hex_lower_push(bytes@.take(i as int), b);
        }
        i = i + 1;
    }
    out
}

/// The identifier of a bundle with the given routing fields and entropy.
pub fn compute_bundle_id(
    created_at_ms: u64,
    expires_at_ms: u64,
    hop_limit: u8,
    priority: Priority,
    payload: &[u8],
    entropy: &[u8; 16],
) -> (id: String)
    ensures
        id@ == bundle_id_spec(created_at_ms, expires_at_ms, hop_limit, priority, payload@, entropy@),
        id@.len() == 24,
        forall|i: int| 0 <= i < id@.len() ==> is_lower_hex_digit(#[trigger] id@[i]),
{
    let preimage = build_id_preimage(created_at_ms, expires_at_ms, hop_limit, priority, payload, entropy);
    let digest = blake3_digest(preimage.as_slice());
    let id = hex_prefix(digest.as_slice(), 12);
    proof {
        lemma_hex_lower_take(digest@, 12);
        lemma_hex_lower_take(digest@.take(12), 12);
        lemma_hex_lower_digits(digest@.take(12));
    }
    id
}

} // verus!
