//! Small verified text helpers: equality and the comma-splitting /
//! whitespace-trimming used to read a multiple-choice submission.
use vstd::prelude::*;
use vstd::string::*;

verus! {

/// Character-exact string equality.
pub fn str_eq(a: &str, b: &str) -> (r: bool)
    ensures
        r == (a@ == b@),
{
    let alen = a.unicode_len();
    let blen = b.unicode_len();
    if alen != blen {
        return false;
    }
    let mut i: usize = 0;
    while i < alen
        invariant
            alen == a@.len(),
            blen == b@.len(),
            alen == blen,
            i <= alen,
            forall|j: int| 0 <= j < i ==> a@[j] == b@[j],
        decreases alen - i,
    {
        if a.get_char(i) != b.get_char(i) {
            return false;
        }
        i += 1;
    }
    proof {
        assert(a@ =~= b@);
    }
    true
}

/// Lexicographic order on character sequences, by code point: the
/// order a binary collation of UTF-8 text exhibits.
pub open spec fn seq_char_lt(a: Seq<char>, b: Seq<char>) -> bool
    decreases a.len(),
{
    if b.len() == 0 {
        false
    } else if a.len() == 0 {
        true
    } else if a[0] != b[0] {
        (a[0] as u32) < (b[0] as u32)
    } else {
        seq_char_lt(a.drop_first(), b.drop_first())
    }
}

/// Dropping an equal prefix from both sides leaves the order unchanged.
pub proof fn lemma_seq_char_lt_skip(a: Seq<char>, b: Seq<char>, i: int)
    requires
        0 <= i <= a.len(),
        i <= b.len(),
        forall|j: int| 0 <= j < i ==> a[j] == b[j],
    ensures
        seq_char_lt(a, b) == seq_char_lt(a.skip(i), b.skip(i)),
    decreases i,
{
    if i > 0 {
        assert(a.len() > 0 && b.len() > 0);
        assert(a[0] == b[0]);
        assert(a.drop_first().take(i - 1) =~= a.take(i).drop_first());
        assert forall|j: int| 0 <= j < i - 1 implies a.drop_first()[j] == b.drop_first()[j] by {
            assert(a[j + 1] == b[j + 1]);
        }
        lemma_seq_char_lt_skip(a.drop_first(), b.drop_first(), i - 1);
        assert(a.drop_first().skip(i - 1) =~= a.skip(i));
        assert(b.drop_first().skip(i - 1) =~= b.skip(i));
    } else {
        assert(a.skip(0) =~= a);
        assert(b.skip(0) =~= b);
    }
}

/// Character-exact lexicographic comparison.
pub fn str_lt(a: &str, b: &str) -> (r: bool)
    ensures
        r == seq_char_lt(a@, b@),
{
    let alen = a.unicode_len();
    let blen = b.unicode_len();
    let m = if alen < blen {
        alen
    } else {
        blen
    };
    let mut i: usize = 0;
    while i < m
        invariant
            alen == a@.len(),
            blen == b@.len(),
            m <= alen && m <= blen,
            i <= m,
            forall|j: int| 0 <= j < i ==> a@[j] == b@[j],
        decreases m - i,
    {
        let ca = a.get_char(i);
        let cb = b.get_char(i);
        if ca != cb {
            proof {
                lemma_seq_char_lt_skip(a@, b@, i as int);
                assert(a@.skip(i as int)[0] == a@[i as int]);
                assert(b@.skip(i as int)[0] == b@[i as int]);
                assert(a@.skip(i as int).len() > 0 && b@.skip(i as int).len() > 0);
            }
            return (ca as u32) < (cb as u32);
        }
        i += 1;
    }
    proof {
        lemma_seq_char_lt_skip(a@, b@, m as int);
        if alen < blen {
            assert(a@.skip(m as int).len() == 0 && b@.skip(m as int).len() > 0);
        } else {
            assert(b@.skip(m as int).len() == 0);
        }
    }
    alen < blen
}

// ============================================
// Password digests
// ============================================
/// The 64-bit FNV-1a digest of a byte sequence. Local profiles store
/// passwords under this digest; it gates convenience, not network
/// security.
pub open spec fn fnv1a(bytes: Seq<u8>) -> u64
    decreases bytes.len(),
{
    if bytes.len() == 0 {
        0xcbf29ce484222325u64
    } else {
        mul_wrapped(fnv1a(bytes.drop_last()) ^ (bytes.last() as u64), 0x100000001b3u64)
    }
}

pub open spec fn mul_wrapped(a: u64, b: u64) -> u64 {
    (((a as int) * (b as int)) % 0x10000000000000000) as u64
}

/// One lowercase hexadecimal digit.
pub open spec fn hex_digit(n: int) -> char {
    if n == 0 {
        '0'
    } else if n == 1 {
        '1'
    } else if n == 2 {
        '2'
    } else if n == 3 {
        '3'
    } else if n == 4 {
        '4'
    } else if n == 5 {
        '5'
    } else if n == 6 {
        '6'
    } else if n == 7 {
        '7'
    } else if n == 8 {
        '8'
    } else if n == 9 {
        '9'
    } else if n == 10 {
        'a'
    } else if n == 11 {
        'b'
    } else if n == 12 {
        'c'
    } else if n == 13 {
        'd'
    } else if n == 14 {
        'e'
    } else {
        'f'
    }
}

/// A number in lowercase hexadecimal, most significant digit first,
/// without leading zeros.
pub open spec fn hex_seq(n: int) -> Seq<char>
    decreases n,
{
    if n < 16 {
        seq![hex_digit(if n < 0 {
            0
        } else {
            n
        })]
    } else {
        hex_seq(n / 16).push(hex_digit(n % 16))
    }
}

/// The stored form of a password: the hexadecimal FNV-1a digest of its
/// bytes.
pub open spec fn password_digest(bytes: Seq<u8>) -> Seq<char> {
    hex_seq(fnv1a(bytes) as int)
}

fn hex_digit_str(n: u64) -> (r: &'static str)
    requires
        n < 16,
    ensures
        r@ == seq![hex_digit(n as int)],
{
    let r = if n == 0 {
        "0"
    } else if n == 1 {
        "1"
    } else if n == 2 {
        "2"
    } else if n == 3 {
        "3"
    } else if n == 4 {
        "4"
    } else if n == 5 {
        "5"
    } else if n == 6 {
        "6"
    } else if n == 7 {
        "7"
    } else if n == 8 {
        "8"
    } else if n == 9 {
        "9"
    } else if n == 10 {
        "a"
    } else if n == 11 {
        "b"
    } else if n == 12 {
        "c"
    } else if n == 13 {
        "d"
    } else if n == 14 {
        "e"
    } else {
        "f"
    };
    proof {
        reveal_strlit("0");
        reveal_strlit("1");
        reveal_strlit("2");
        reveal_strlit("3");
        reveal_strlit("4");
        reveal_strlit("5");
        reveal_strlit("6");
        reveal_strlit("7");
        reveal_strlit("8");
        reveal_strlit("9");
        reveal_strlit("a");
        reveal_strlit("b");
        reveal_strlit("c");
        reveal_strlit("d");
        reveal_strlit("e");
        reveal_strlit("f");
        assert(r@ =~= seq![hex_digit(n as int)]);
    }
    r
}

fn hex_string(n: u64) -> (r: String)
    ensures
        r@ == hex_seq(n as int),
    decreases n,
{
    if n < 16 {
        hex_digit_str(n).to_owned()
    } else {
        let mut s = hex_string(n / 16);
        s.append(hex_digit_str(n % 16));
        proof {
            assert(s@ =~= hex_seq(n as int));
        }
        s
    }
}

/// Digests a password for storage; logins compare against the stored
/// digest.
pub fn hash_password(password: &str) -> (r: String)
    ensures
        r@ == password_digest(password.spec_bytes()),
{
    let bytes = password.as_bytes();
    let n = bytes.len();
    let mut acc: u64 = 0xcbf29ce484222325u64;
    let mut i: usize = 0;
    while i < n
        invariant
            n == bytes@.len(),
            bytes@ == password.spec_bytes(),
            i <= n,
            acc == fnv1a(bytes@.take(i as int)),
        decreases n - i,
    {
        proof {
            assert(bytes@.take(i as int + 1).drop_last() =~= bytes@.take(i as int));
            assert(bytes@.take(i as int + 1).last() == bytes@[i as int]);
        }
        acc = (acc ^ (bytes[i] as u64)).wrapping_mul(0x100000001b3u64);
        i += 1;
    }
    proof {
        bytes@.lemma_take_len();
    }
    hex_string(acc)
}

} // verus!
