//! Content digests: SHA-256 fingerprints rendered as lowercase hex text,
//! and the normalised comparison of two digest texts.

use vstd::prelude::*;
use vstd::string::StrSliceExecFns;

verus! {

/// The raw SHA-256 digest of a byte sequence.
pub uninterp spec fn sha256_of(data: Seq<u8>) -> Seq<u8>;

/// The lowercase hex digit for a value below sixteen.
pub open spec fn hex_digit(v: u8) -> char {
    if v == 0 { '0' } else if v == 1 { '1' } else if v == 2 { '2' } else if v == 3 { '3' }
    else if v == 4 { '4' } else if v == 5 { '5' } else if v == 6 { '6' } else if v == 7 { '7' }
    else if v == 8 { '8' } else if v == 9 { '9' } else if v == 10 { 'a' } else if v == 11 { 'b' }
    else if v == 12 { 'c' } else if v == 13 { 'd' } else if v == 14 { 'e' } else { 'f' }
}

/// The two hex digits of one byte, high nibble first.
pub open spec fn hex_pair(b: u8) -> Seq<char> {
    seq![hex_digit(b / 16), hex_digit(b % 16)]
}

/// Lowercase hex text of a byte sequence: two digits per byte, in order.
pub open spec fn hex_text(bytes: Seq<u8>) -> Seq<char>
    decreases bytes.len(),
{
    if bytes.len() == 0 {
        Seq::empty()
    } else {
        hex_text(bytes.drop_last()) + hex_pair(bytes.last())
    }
}

/// The digest text of a file's content.
pub open spec fn digest_of(content: Seq<u8>) -> Seq<char> {
    hex_text(sha256_of(content))
}

/// Upper-case hex letters are folded to lower case; every other character is kept.
pub open spec fn fold_hex_char(c: char) -> char {
    if c == 'A' { 'a' } else if c == 'B' { 'b' } else if c == 'C' { 'c' }
    else if c == 'D' { 'd' } else if c == 'E' { 'e' } else if c == 'F' { 'f' }
    else { c }
}

/// The case-normalised form of a digest text.
pub open spec fn normalized(s: Seq<char>) -> Seq<char> {
    s.map_values(|c: char| fold_hex_char(c))
}

/// Relies on `sha2::Sha256::digest`: the SHA-256 digest of the given bytes.
#[verifier::external_body]
fn sha256(data: &[u8]) -> (r: Vec<u8>)
    ensures
        r@ == sha256_of(data@),
{
    <sha2::Sha256 as sha2::Digest>::digest(data).to_vec()
}

/// Relies on `hex::encode`: two lowercase hex digits per byte, high nibble first.
#[verifier::external_body]
fn hex_encode(bytes: &[u8]) -> (r: String)
    ensures
        r@ == hex_text(bytes@),
{
    hex::encode(bytes)
}

/// The digest text of `content`.
pub fn digest_hex(content: &[u8]) -> (r: String)
    ensures
        r@ == digest_of(content@),
{
    let raw = sha256(content);
    hex_encode(raw.as_slice())
}

fn fold_hex(c: char) -> (r: char)
    ensures
        r == fold_hex_char(c),
{
    match c {
        'A' => 'a',
        'B' => 'b',
        'C' => 'c',
        'D' => 'd',
        'E' => 'e',
        'F' => 'f',
        _ => c,
    }
}

/// Whether two digest texts agree once hex letters are folded to one case.
pub fn same_digest(a: &String, b: &String) -> (r: bool)
    ensures
        r == (normalized(a@) == normalized(b@)),
{
    let sa = a.as_str();
    let sb = b.as_str();
    let n = sa.unicode_len();
    if n != sb.unicode_len() {
        assert(normalized(a@).len() != normalized(b@).len());
        return false;
    }
    let mut i: usize = 0;
    while i < n
        invariant
            n == a@.len(),
            n == b@.len(),
            sa@ == a@,
            sb@ == b@,
            i <= n,
            forall|j: int| 0 <= j < i ==> fold_hex_char(a@[j]) == fold_hex_char(b@[j]),
        decreases n - i,
    {
        if fold_hex(sa.get_char(i)) != fold_hex(sb.get_char(i)) {
            assert(normalized(a@)[i as int] != normalized(b@)[i as int]);
            return false;
        }
        i = i + 1;
    }
    assert(normalized(a@) =~= normalized(b@));
    true
}

proof fn lemma_hex_pair_injective(x: u8, y: u8)
    requires
        hex_pair(x) == hex_pair(y),
    ensures
        x == y,
{
    assert(hex_pair(x)[0] == hex_pair(y)[0]);
    assert(hex_pair(x)[1] == hex_pair(y)[1]);
    assert(x / 16 == y / 16);
    assert(x % 16 == y % 16);
}

proof fn lemma_hex_text_len(bytes: Seq<u8>)
    ensures
        hex_text(bytes).len() == 2 * bytes.len(),
    decreases bytes.len(),
{
    if bytes.len() > 0 {
        lemma_hex_text_len(bytes.drop_last());
    }
}

proof fn lemma_hex_text_injective(a: Seq<u8>, b: Seq<u8>)
    requires
        hex_text(a) == hex_text(b),
    ensures
        a == b,
    decreases a.len(),
{
    lemma_hex_text_len(a);
    lemma_hex_text_len(b);
    if a.len() > 0 {
        let ta = hex_text(a.drop_last());
        let tb = hex_text(b.drop_last());
        lemma_hex_text_len(a.drop_last());
        lemma_hex_text_len(b.drop_last());
        let n = ta.len();
        assert(hex_text(a) == ta + hex_pair(a.last()));
        assert(hex_text(b) == tb + hex_pair(b.last()));
        assert(ta =~= hex_text(a).subrange(0, n as int));
        assert(tb =~= hex_text(b).subrange(0, n as int));
        assert(hex_pair(a.last()) =~= hex_text(a).subrange(n as int, n + 2int));
        assert(hex_pair(b.last()) =~= hex_text(b).subrange(n as int, n + 2int));
        lemma_hex_text_injective(a.drop_last(), b.drop_last());
        lemma_hex_pair_injective(a.last(), b.last());
        assert(a =~= a.drop_last().push(a.last()));
        assert(b =~= b.drop_last().push(b.last()));
    }
}

/// Digests are deterministic: equal contents give equal digest texts, and
/// digest texts differ exactly when the underlying raw digests differ.
pub proof fn lemma_digest_deterministic(a: Seq<u8>, b: Seq<u8>)
    ensures
        a == b ==> digest_of(a) == digest_of(b),
        (digest_of(a) == digest_of(b)) == (sha256_of(a) == sha256_of(b)),
{
    if digest_of(a) == digest_of(b) {
        lemma_hex_text_injective(sha256_of(a), sha256_of(b));
    }
}

} // verus!
