use vstd::prelude::*;

verus! {

/// Number of bytes in an Ed25519 key.
pub const KEY_SIZE: usize = 32;

/// Number of bytes in a SHA-256 digest.
pub const HASH_SIZE: usize = 32;

/// Number of bytes in an Ed25519 signature.
pub const SIGNATURE_SIZE: usize = 64;

/// A 32-byte Ed25519 key, held as a plain byte vector.
pub type Key = Vec<u8>;

/// A 32-byte SHA-256 digest identifying an event, held as a plain byte vector.
pub type Hash = Vec<u8>;

/// A 64-byte Ed25519 signature, held as a plain byte vector.
pub type Signature = Vec<u8>;

/// Byte-for-byte equality of two byte vectors.
pub fn bytes_eq(a: &Vec<u8>, b: &Vec<u8>) -> (r: bool)
    ensures
        r == (a@ == b@),
{
    if a.len() != b.len() {
        assert(a@ != b@) by {
            assert(a@.len() != b@.len());
        }
        return false;
    }
    let n = a.len();
    let mut i: usize = 0;
    while i < n
        invariant
            n == a@.len() == b@.len(),
            0 <= i <= n,
            forall|j: int| 0 <= j < i ==> a@[j] == b@[j],
        decreases n - i,
    {
        if a[i] != b[i] {
            return false;
        }
        i += 1;
    }
    proof {
        assert(a@ =~= b@);
    }
    true
}

/// Whether `x` occurs in `v`.
pub fn contains_u64(v: &Vec<u64>, x: u64) -> (r: bool)
    ensures
        r == v@.contains(x),
{
    let n = v.len();
    let mut i: usize = 0;
    while i < n
        invariant
            0 <= i <= n,
            n == v@.len(),
            forall|j: int| 0 <= j < i ==> v@[j] != x,
        decreases n - i,
    {
        if v[i] == x {
            assert(v@[i as int] == x);
            return true;
        }
        i += 1;
    }
    false
}

/// A copy of a byte vector with the same contents.
pub fn clone_bytes(src: &Vec<u8>) -> (r: Vec<u8>)
    ensures
        r@ == src@,
{
    let mut out: Vec<u8> = Vec::new();
    push_bytes(&mut out, src);
    proof {
        assert(Seq::<u8>::empty() + src@ =~= src@);
    }
    out
}

/// Appends every byte of `src` to `dst`.
pub fn push_bytes(dst: &mut Vec<u8>, src: &Vec<u8>)
    ensures
        final(dst)@ == old(dst)@ + src@,
{
    let n = src.len();
    let mut i: usize = 0;
    while i < n
        invariant
            n == src@.len(),
            0 <= i <= n,
            dst@ == old(dst)@ + src@.take(i as int),
        decreases n - i,
    {
        dst.push(src[i]);
        proof {
            assert(old(dst)@ + src@.take(i + 1) =~= (old(dst)@ + src@.take(i as int)).push(
                src@[i as int],
            ));
        }
        i += 1;
    }
    proof {
        assert(src@.take(n as int) =~= src@);
    }
}

/// Appends every byte of the slice `src` to `dst`.
pub fn push_byte_slice(dst: &mut Vec<u8>, src: &[u8])
    ensures
        final(dst)@ == old(dst)@ + src@,
{
    let n = src.len();
    let mut i: usize = 0;
    while i < n
        invariant
            n == src@.len(),
            0 <= i <= n,
            dst@ == old(dst)@ + src@.take(i as int),
        decreases n - i,
    {
        dst.push(*vstd::slice::slice_index_get(src, i));
        proof {
            assert(old(dst)@ + src@.take(i + 1) =~= (old(dst)@ + src@.take(i as int)).push(
                src@[i as int],
            ));
        }
        i += 1;
    }
    proof {
        assert(src@.take(n as int) =~= src@);
    }
}

/// Strict lexicographic order over byte sequences: shorter prefixes come
/// first, and the first differing byte decides.
pub open spec fn lex_lt(a: Seq<u8>, b: Seq<u8>) -> bool
    decreases a.len(),
{
    if b.len() == 0 {
        false
    } else if a.len() == 0 {
        true
    } else if a[0] < b[0] {
        true
    } else if a[0] > b[0] {
        false
    } else {
        lex_lt(a.skip(1), b.skip(1))
    }
}

/// Decides `lex_lt` on two byte vectors.
pub fn bytes_lex_lt(a: &Vec<u8>, b: &Vec<u8>) -> (r: bool)
    ensures
        r == lex_lt(a@, b@),
{
    let mut i: usize = 0;
    proof {
        assert(a@.skip(0) =~= a@);
        assert(b@.skip(0) =~= b@);
    }
    loop
        invariant
            0 <= i <= a@.len(),
            0 <= i <= b@.len(),
            forall|j: int| 0 <= j < i ==> a@[j] == b@[j],
            lex_lt(a@, b@) == lex_lt(a@.skip(i as int), b@.skip(i as int)),
        decreases a@.len() - i,
    {
        if i >= b.len() {
            assert(b@.skip(i as int).len() == 0);
            return false;
        }
        if i >= a.len() {
            assert(a@.skip(i as int).len() == 0);
            assert(b@.skip(i as int).len() > 0);
            return true;
        }
        let x = a[i];
        let y = b[i];
        assert(a@.skip(i as int)[0] == a@[i as int]);
        assert(b@.skip(i as int)[0] == b@[i as int]);
        if x < y {
            return true;
        }
        if x > y {
            return false;
        }
        proof {
            assert(a@.skip(i as int).skip(1) =~= a@.skip(i + 1));
            assert(b@.skip(i as int).skip(1) =~= b@.skip(i + 1));
        }
        i += 1;
    }
}

/// `lex_lt` never holds of a sequence and itself.
pub proof fn lemma_lex_irreflexive(a: Seq<u8>)
    ensures
        !lex_lt(a, a),
    decreases a.len(),
{
    if a.len() > 0 {
        lemma_lex_irreflexive(a.skip(1));
    }
}

/// Two sequences are lexicographically comparable: one is below the
/// other, or they are equal.
pub proof fn lemma_lex_trichotomy(a: Seq<u8>, b: Seq<u8>)
    ensures
        lex_lt(a, b) || lex_lt(b, a) || a == b,
    decreases a.len(),
{
    if b.len() == 0 {
        if a.len() == 0 {
            assert(a =~= b);
        }
    } else if a.len() == 0 {
    } else if a[0] == b[0] {
        lemma_lex_trichotomy(a.skip(1), b.skip(1));
        if !lex_lt(a, b) && !lex_lt(b, a) {
            assert(a.skip(1) == b.skip(1));
            assert(a =~= b) by {
                assert forall|i: int| 0 <= i < a.len() implies a[i] == b[i] by {
                    if i > 0 {
                        assert(a.skip(1)[i - 1] == a[i]);
                        assert(b.skip(1)[i - 1] == b[i]);
                    }
                }
            }
        }
    }
}

/// Lexicographic order is transitive.
pub proof fn lemma_lex_transitive(a: Seq<u8>, b: Seq<u8>, c: Seq<u8>)
    requires
        lex_lt(a, b),
        lex_lt(b, c),
    ensures
        lex_lt(a, c),
    decreases a.len(),
{
    if a.len() == 0 {
    } else {
        if a[0] == b[0] && b[0] == c[0] {
            lemma_lex_transitive(a.skip(1), b.skip(1), c.skip(1));
        }
    }
}

/// The spec-level hexadecimal digit for a value below 16.
pub open spec fn hex_digit(d: u8) -> char {
    if d == 0 {
        '0'
    } else if d == 1 {
        '1'
    } else if d == 2 {
        '2'
    } else if d == 3 {
        '3'
    } else if d == 4 {
        '4'
    } else if d == 5 {
        '5'
    } else if d == 6 {
        '6'
    } else if d == 7 {
        '7'
    } else if d == 8 {
        '8'
    } else if d == 9 {
        '9'
    } else if d == 10 {
        'a'
    } else if d == 11 {
        'b'
    } else if d == 12 {
        'c'
    } else if d == 13 {
        'd'
    } else if d == 14 {
        'e'
    } else {
        'f'
    }
}

/// The lowercase, fixed-width hexadecimal rendering of a byte sequence:
/// two digits per byte, high nibble first.
pub open spec fn hex_of(bytes: Seq<u8>) -> Seq<char>
    decreases bytes.len(),
{
    if bytes.len() == 0 {
        Seq::<char>::empty()
    } else {
        seq![hex_digit(bytes[0] / 16), hex_digit(bytes[0] % 16)] + hex_of(bytes.skip(1))
    }
}

/// Appends the single hexadecimal digit for `d` to `s`.
fn push_hex_digit(s: &mut String, d: u8)
    requires
        d < 16,
    ensures
        final(s)@ == old(s)@ + seq![hex_digit(d)],
{
    if d == 0 {
        proof { reveal_strlit("0"); }
        s.append("0");
    } else if d == 1 {
        proof { reveal_strlit("1"); }
        s.append("1");
    } else if d == 2 {
        proof { reveal_strlit("2"); }
        s.append("2");
    } else if d == 3 {
        proof { reveal_strlit("3"); }
        s.append("3");
    } else if d == 4 {
        proof { reveal_strlit("4"); }
        s.append("4");
    } else if d == 5 {
        proof { reveal_strlit("5"); }
        s.append("5");
    } else if d == 6 {
        proof { reveal_strlit("6"); }
        s.append("6");
    } else if d == 7 {
        proof { reveal_strlit("7"); }
        s.append("7");
    } else if d == 8 {
        proof { reveal_strlit("8"); }
        s.append("8");
    } else if d == 9 {
        proof { reveal_strlit("9"); }
        s.append("9");
    } else if d == 10 {
        proof { reveal_strlit("a"); }
        s.append("a");
    } else if d == 11 {
        proof { reveal_strlit("b"); }
        s.append("b");
    } else if d == 12 {
        proof { reveal_strlit("c"); }
        s.append("c");
    } else if d == 13 {
        proof { reveal_strlit("d"); }
        s.append("d");
    } else if d == 14 {
        proof { reveal_strlit("e"); }
        s.append("e");
    } else {
        proof { reveal_strlit("f"); }
        s.append("f");
    }
}

/// Appends the two hexadecimal digits of one byte to `s`.
fn push_hex_byte(s: &mut String, b: u8)
    ensures
        final(s)@ == old(s)@ + seq![hex_digit(b / 16), hex_digit(b % 16)],
{
    push_hex_digit(s, b / 16);
    push_hex_digit(s, b % 16);
}

/// Renders a byte slice as a lowercase hexadecimal string,
/// two digits per byte.
pub fn bytes_to_hex(bytes: &[u8]) -> (r: String)
    ensures
        r@ == hex_of(bytes@),
{
    let mut s = String::new();
    let n = bytes.len();
    let mut i: usize = 0;
    while i < n
        invariant
            n == bytes@.len(),
            0 <= i <= n,
            s@ == hex_of(bytes@.take(i as int)),
        decreases n - i,
    {
        let b = *vstd::slice::slice_index_get(bytes, i);
        push_hex_byte(&mut s, b);
        proof {
            lemma_hex_of_snoc(bytes@, i as int);
        }
        i += 1;
    }
    proof {
        assert(bytes@.take(n as int) =~= bytes@);
    }
    s
}

/// Extending the input by one byte extends the hex rendering by that
/// byte's two digits.
proof fn lemma_hex_of_snoc(bytes: Seq<u8>, i: int)
    requires
        0 <= i < bytes.len(),
    ensures
        hex_of(bytes.take(i + 1)) == hex_of(bytes.take(i)) + seq![
            hex_digit(bytes[i] / 16),
            hex_digit(bytes[i] % 16),
        ],
    decreases i,
{
    let pre = bytes.take(i);
    let post = bytes.take(i + 1);
    if i == 0 {
        assert(post.len() == 1);
        assert(post[0] == bytes[0]);
        assert(post.skip(1) =~= Seq::<u8>::empty());
        assert(hex_of(Seq::<u8>::empty()) =~= Seq::<char>::empty());
        assert(hex_of(pre) =~= Seq::<char>::empty());
        assert(hex_of(post) =~= seq![hex_digit(post[0] / 16), hex_digit(post[0] % 16)] + hex_of(
            post.skip(1),
        ));
        assert(hex_of(post) =~= seq![hex_digit(bytes[0] / 16), hex_digit(bytes[0] % 16)]);
    } else {
        lemma_hex_of_snoc(bytes.skip(1), i - 1);
        assert(pre.skip(1) =~= bytes.skip(1).take(i - 1));
        assert(post.skip(1) =~= bytes.skip(1).take(i));
        assert(pre[0] == bytes[0]);
        assert(post[0] == bytes[0]);
        assert(bytes.skip(1)[i - 1] == bytes[i]);
        assert(hex_of(post) == seq![hex_digit(bytes[0] / 16), hex_digit(bytes[0] % 16)] + hex_of(
            post.skip(1),
        ));
        assert(hex_of(pre) + seq![hex_digit(bytes[i] / 16), hex_digit(bytes[i] % 16)] =~= seq![
            hex_digit(bytes[0] / 16),
            hex_digit(bytes[0] % 16),
        ] + (hex_of(bytes.skip(1).take(i - 1)) + seq![
            hex_digit(bytes[i] / 16),
            hex_digit(bytes[i] % 16),
        ]));
    }
}

} // verus!
