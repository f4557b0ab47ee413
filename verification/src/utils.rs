use blake2::digest::consts::U10;
use blake2::digest::Digest;
use vstd::prelude::*;

verus! {

/// The BLAKE2b digest with a 10-byte output, as a function of the input bytes
/// alone.  The digest itself is far too involved to restate here; contracts
/// refer to it only by this name.
pub uninterp spec fn blake2b10_of(bytes: Seq<u8>) -> Seq<u8>;

/// The lowercase hex digit for a value below 16.
pub open spec fn hex_digit(v: u8) -> u8 {
    if v < 10 {
        (v + 48) as u8
    } else {
        (v + 87) as u8
    }
}

/// Lowercase hex rendering of a byte sequence: two digits per byte,
/// high nibble first.
pub open spec fn hex_of(bytes: Seq<u8>) -> Seq<u8>
    decreases bytes.len(),
{
    if bytes.len() == 0 {
        Seq::empty()
    } else {
        hex_of(bytes.drop_last()) + seq![
            hex_digit(bytes.last() / 16),
            hex_digit(bytes.last() % 16),
        ]
    }
}

/// The fingerprint a merch document stores for a file's content: the
/// lowercase hex rendering of the content's 10-byte BLAKE2b digest.
pub open spec fn fingerprint_of(bytes: Seq<u8>) -> Seq<u8> {
    hex_of(blake2b10_of(bytes))
}

/// Relies on blake2::Blake2b<U10> (through digest::Digest): hashing is
/// deterministic, so the 10-byte digest depends on the input bytes alone.
#[verifier::external_body]
fn blake2b_10(bytes: &[u8]) -> (r: Vec<u8>)
    ensures
        r@ == blake2b10_of(bytes@),
{
    let mut hasher = blake2::Blake2b::<U10>::new();
    hasher.update(bytes);
    hasher.finalize().to_vec()
}

/// Renders a byte sequence as lowercase hex, two digits per byte.
fn hex_bytes(bytes: &Vec<u8>) -> (r: Vec<u8>)
    ensures
        r@ == hex_of(bytes@),
{
    let mut r: Vec<u8> = Vec::new();
    let mut i: usize = 0;
    while i < bytes.len()
        invariant
            i <= bytes@.len(),
            r@ == hex_of(bytes@.take(i as int)),
        decreases bytes@.len() - i,
    {
        let b = bytes[i];
        let hi = b / 16;
        let lo = b % 16;
        r.push(if hi < 10 { hi + 48 } else { hi + 87 });
        r.push(if lo < 10 { lo + 48 } else { lo + 87 });
        proof {
            let t = bytes@.take(i + 1);
            assert(t.drop_last() =~= bytes@.take(i as int));
            assert(t.last() == b);
        }
        i = i + 1;
    }
    proof {
        assert(bytes@.take(bytes@.len() as int) =~= bytes@);
    }
    r
}

/// The content fingerprint used throughout a merch document: the lowercase
/// hex rendering of the content's 10-byte BLAKE2b digest.
pub fn compute_hash(bytes: &[u8]) -> (r: Vec<u8>)
    ensures
        r@ == fingerprint_of(bytes@),
{
    let digest = blake2b_10(bytes);
    hex_bytes(&digest)
}

/// Byte-wise lexicographic order on byte sequences: a proper prefix comes
/// first, otherwise the first differing byte decides.
pub open spec fn lex_lt(a: Seq<u8>, b: Seq<u8>) -> bool
    decreases a.len(),
{
    if b.len() == 0 {
        false
    } else if a.len() == 0 {
        true
    } else if a[0] < b[0] {
        true
    } else if a[0] > b[0] {
        false
    } else {
        lex_lt(a.skip(1), b.skip(1))
    }
}

/// The deep view of a byte vector is its view.
pub proof fn lemma_dv_bytes(v: Vec<u8>)
    ensures
        v.deep_view() == v@,
{
    assert(v.deep_view() =~= v@);
}

/// Copies a byte vector.
pub fn clone_bytes(v: &Vec<u8>) -> (r: Vec<u8>)
    ensures
        r@ == v@,
{
    let mut r: Vec<u8> = Vec::new();
    r.extend_from_slice(v.as_slice());
    proof {
        assert(r@ =~= v@);
    }
    r
}

/// Compares two byte vectors for equality.
pub fn bytes_eq(a: &Vec<u8>, b: &Vec<u8>) -> (r: bool)
    ensures
        r == (a@ == b@),
{
    if a.len() != b.len() {
        proof {
            assert(a@.len() != b@.len());
        }
        return false;
    }
    let mut i: usize = 0;
    while i < a.len()
        invariant
            i <= a@.len(),
            a@.len() == b@.len(),
            forall|k: int| 0 <= k < i ==> a@[k] == b@[k],
        decreases a@.len() - i,
    {
        if a[i] != b[i] {
            return false;
        }
        i = i + 1;
    }
    proof {
        assert(a@ =~= b@);
    }
    true
}

/// Decides byte-wise lexicographic order on byte vectors.
pub fn bytes_lt(a: &Vec<u8>, b: &Vec<u8>) -> (r: bool)
    ensures
        r == lex_lt(a@, b@),
{
    proof {
        assert(a@.skip(0) =~= a@);
        assert(b@.skip(0) =~= b@);
    }
    let mut i: usize = 0;
    while i < a.len() && i < b.len()
        invariant
            i <= a@.len(),
            i <= b@.len(),
            lex_lt(a@, b@) == lex_lt(a@.skip(i as int), b@.skip(i as int)),
            forall|k: int| 0 <= k < i ==> a@[k] == b@[k],
        decreases a@.len() - i,
    {
        proof {
            assert(a@.skip(i as int)[0] == a@[i as int]);
            assert(b@.skip(i as int)[0] == b@[i as int]);
        }
        if a[i] < b[i] {
            return true;
        }
        if a[i] > b[i] {
            return false;
        }
        proof {
            assert(a@.skip(i as int).skip(1) =~= a@.skip(i as int + 1));
            assert(b@.skip(i as int).skip(1) =~= b@.skip(i as int + 1));
        }
        i = i + 1;
    }
    proof {
        if i < b@.len() {
            assert(a@.skip(i as int).len() == 0);
        } else {
            assert(b@.skip(i as int).len() == 0);
        }
    }
    i < b.len()
}

/// Wraps each written line in a fixed comment prefix and suffix.
pub struct LineFormatter {
    pub prefix: Vec<u8>,
    pub suffix: Vec<u8>,
}

impl LineFormatter {
    /// The bytes `writeln` appends for the given text.
    pub open spec fn line_of(&self, text: Seq<u8>) -> Seq<u8> {
        self.prefix@ + text + self.suffix@ + seq![10u8]
    }

    /// Appends one comment-wrapped line: prefix, text, suffix, newline.
    pub fn writeln(&self, out: &mut Vec<u8>, text: &[u8])
        ensures
            final(out)@ == old(out)@ + self.line_of(text@),
    {
        out.extend_from_slice(self.prefix.as_slice());
        out.extend_from_slice(text);
        out.extend_from_slice(self.suffix.as_slice());
        out.push(10u8);
        proof {
            assert(out@ =~= old(out)@ + self.line_of(text@));
        }
    }
}

} // verus!
