//! Credential hashing and verification.  A stored secret has the versioned
//! form `0;{salt0};{salt1};{hash}` with fixed-width hexadecimal fields; the
//! hash is a salted placeholder mix of the four-word client secret.  A
//! produced record always verifies, and only a record whose hash matches
//! the recomputed one does.

use vstd::prelude::*;
use vstd::string::StrSliceExecFns;
use vstd::string::StringExecFns;

verus! {

pub type Secret = [u32; 4];

/// Outcome of checking a client secret against a stored record.
#[derive(Clone, Copy, PartialEq, Eq, Structural, Debug)]
pub enum SecretMatch {
    Yes,
    No,
    YesNeedsRehash,
}

/// The salted placeholder hash of the four secret words.
pub open spec fn spec_keyed_hash(salt0: u64, salt1: u64, s: Secret) -> u64 {
    crate::terrain_gen::spec_mix(
        salt0,
        salt1,
        ((s[0] as u64) << 32) | (s[1] as u64),
        ((s[2] as u64) << 32) | (s[3] as u64),
    )
}

pub fn keyed_hash(salt0: u64, salt1: u64, s: &Secret) -> (r: u64)
    ensures
        r == spec_keyed_hash(salt0, salt1, *s),
{
    crate::terrain_gen::mix(
        salt0,
        salt1,
        ((s[0] as u64) << 32) | (s[1] as u64),
        ((s[2] as u64) << 32) | (s[3] as u64),
    )
}

/// Hexadecimal digit characters.
pub open spec fn spec_hex_char(d: int) -> char {
    if d == 0 {
        '0'
    } else if d == 1 {
        '1'
    } else if d == 2 {
        '2'
    } else if d == 3 {
        '3'
    } else if d == 4 {
        '4'
    } else if d == 5 {
        '5'
    } else if d == 6 {
        '6'
    } else if d == 7 {
        '7'
    } else if d == 8 {
        '8'
    } else if d == 9 {
        '9'
    } else if d == 10 {
        'a'
    } else if d == 11 {
        'b'
    } else if d == 12 {
        'c'
    } else if d == 13 {
        'd'
    } else if d == 14 {
        'e'
    } else {
        'f'
    }
}

/// Numeric value of a hex digit character, if it is one.
pub open spec fn spec_hex_val(c: char) -> Option<int> {
    if c == '0' {
        Some(0int)
    } else if c == '1' {
        Some(1int)
    } else if c == '2' {
        Some(2int)
    } else if c == '3' {
        Some(3int)
    } else if c == '4' {
        Some(4int)
    } else if c == '5' {
        Some(5int)
    } else if c == '6' {
        Some(6int)
    } else if c == '7' {
        Some(7int)
    } else if c == '8' {
        Some(8int)
    } else if c == '9' {
        Some(9int)
    } else if c == 'a' {
        Some(10int)
    } else if c == 'b' {
        Some(11int)
    } else if c == 'c' {
        Some(12int)
    } else if c == 'd' {
        Some(13int)
    } else if c == 'e' {
        Some(14int)
    } else if c == 'f' {
        Some(15int)
    } else {
        None
    }
}

/// Nibble `i` (most significant first) of a 64-bit value.
pub open spec fn spec_nibble(n: u64, i: int) -> int {
    ((n >> (((15 - i) * 4) as u64)) & 0xF) as int
}

/// Fixed-width (16 digit) lower-case hex of a 64-bit value.
pub open spec fn spec_hex(n: u64) -> Seq<char> {
    Seq::new(16, |i: int| spec_hex_char(spec_nibble(n, i)))
}

/// The stored form: version 0, both salts and the keyed hash in fixed
/// hex fields.
pub open spec fn spec_secret_string(salt0: u64, salt1: u64, h: u64) -> Seq<char> {
    seq!['0', ';'] + spec_hex(salt0) + seq![';'] + spec_hex(salt1) + seq![';'] + spec_hex(h)
}

/// Hex digits round-trip through their character.
proof fn lemma_hex_char_val(d: int)
    requires
        0 <= d < 16,
    ensures
        spec_hex_val(spec_hex_char(d)) == Some(d),
{
}

fn hex_char_str(d: u8) -> (r: &'static str)
    requires
        d < 16,
    ensures
        r@ == seq![spec_hex_char(d as int)],
{
    proof {
        reveal_strlit("0");
        reveal_strlit("1");
        reveal_strlit("2");
        reveal_strlit("3");
        reveal_strlit("4");
        reveal_strlit("5");
        reveal_strlit("6");
        reveal_strlit("7");
        reveal_strlit("8");
        reveal_strlit("9");
        reveal_strlit("a");
        reveal_strlit("b");
        reveal_strlit("c");
        reveal_strlit("d");
        reveal_strlit("e");
        reveal_strlit("f");
    }
    let r = match d {
        0 => "0",
        1 => "1",
        2 => "2",
        3 => "3",
        4 => "4",
        5 => "5",
        6 => "6",
        7 => "7",
        8 => "8",
        9 => "9",
        10 => "a",
        11 => "b",
        12 => "c",
        13 => "d",
        14 => "e",
        _ => "f",
    };
    proof {
        assert(r@ =~= seq![spec_hex_char(d as int)]);
    }
    r
}

/// Appends the 16 hex digits of `n`.
fn push_hex(out: &mut String, n: u64)
    ensures
        final(out)@ == old(out)@ + spec_hex(n),
{
    let mut i: u64 = 0;
    while i < 16
        invariant
            0 <= i <= 16,
            out@ == old(out)@ + spec_hex(n).take(i as int),
        decreases 16 - i,
    {
        let shift: u64 = (15 - i) * 4;
        let d: u8 = ((n >> shift) & 0xF) as u8;
        proof {
            assert((n >> shift) & 0xF < 16) by (bit_vector);
        }
        out.append(hex_char_str(d));
        proof {
            assert(out@ =~= old(out)@ + spec_hex(n).take(i as int + 1));
        }
        i += 1;
    }
    proof {
        assert(spec_hex(n).take(16) =~= spec_hex(n));
    }
}

/// Formats a stored secret record from the salts and the secret.
pub fn hash_secret_with(s: &Secret, salt0: u64, salt1: u64) -> (r: String)
    ensures
        r@ == spec_secret_string(salt0, salt1, spec_keyed_hash(salt0, salt1, *s)),
{
    let h = keyed_hash(salt0, salt1, s);
    let mut out = String::new();
    proof {
        reveal_strlit("0;");
        reveal_strlit(";");
    }
    out.append("0;");
    push_hex(&mut out, salt0);
    out.append(";");
    push_hex(&mut out, salt1);
    out.append(";");
    push_hex(&mut out, h);
    proof {
        assert(out@ =~= spec_secret_string(salt0, salt1, spec_keyed_hash(salt0, salt1, *s)));
    }
    out
}

/// Relies on rand::random: a freshly drawn 64-bit salt, of which nothing
/// is promised.
#[verifier::external_body]
fn fresh_salt() -> u64 {
    rand::random()
}

/// Formats a stored secret record under two freshly drawn random salts.
/// Whatever the salts turn out to be, the record verifies against the same
/// secret (`lemma_hash_then_check`).
pub fn hash_secret(s: &Secret) -> (r: String)
    ensures
        exists|s0: u64, s1: u64| #[trigger] spec_secret_string(
            s0,
            s1,
            spec_keyed_hash(s0, s1, *s),
        ) == r@,
{
    let salt0 = fresh_salt();
    let salt1 = fresh_salt();
    hash_secret_with(s, salt0, salt1)
}

/// The parse of 16 hex digits starting at `off`, folding most significant
/// first; `None` on a non-digit.
pub open spec fn spec_parse_hex(sq: Seq<char>, off: int, k: int, acc: u64) -> Option<u64>
    decreases 16 - k,
{
    if k >= 16 {
        Some(acc)
    } else {
        match spec_hex_val(sq[off + k]) {
            Some(d) => spec_parse_hex(
                sq,
                off,
                k + 1,
                ((acc as int * 16 + d) % 0x1_0000_0000_0000_0000) as u64,
            ),
            None => None,
        }
    }
}

/// A stored record verifies exactly when it has the fixed shape and its
/// hash field equals the recomputed keyed hash.
pub open spec fn spec_check_ok(s: Secret, h: Seq<char>) -> bool {
    &&& h.len() == 52
    &&& h[0] == '0'
    &&& h[1] == ';'
    &&& h[18] == ';'
    &&& h[35] == ';'
    &&& {
        let p0 = spec_parse_hex(h, 2, 0, 0);
        let p1 = spec_parse_hex(h, 19, 0, 0);
        let p2 = spec_parse_hex(h, 36, 0, 0);
        &&& p0 is Some
        &&& p1 is Some
        &&& p2 is Some
        &&& p2->Some_0 == spec_keyed_hash(p0->Some_0, p1->Some_0, s)
    }
}

/// Parses the 16 hex digits at `off`.
fn parse_hex(h: &str, off: usize) -> (r: Option<u64>)
    requires
        off + 16 <= h@.len(),
        h@.len() < 0x1000,
    ensures
        r == spec_parse_hex(h@, off as int, 0, 0),
{
    let mut acc: u64 = 0;
    let mut k: usize = 0;
    while k < 16
        invariant
            0 <= k <= 16,
            off + 16 <= h@.len(),
            h@.len() < 0x1000,
            spec_parse_hex(h@, off as int, 0, 0) == spec_parse_hex(
                h@,
                off as int,
                k as int,
                acc,
            ),
        decreases 16 - k,
    {
        let c = h.get_char(off + k);
        let d: u64 = match c {
            '0' => 0,
            '1' => 1,
            '2' => 2,
            '3' => 3,
            '4' => 4,
            '5' => 5,
            '6' => 6,
            '7' => 7,
            '8' => 8,
            '9' => 9,
            'a' => 10,
            'b' => 11,
            'c' => 12,
            'd' => 13,
            'e' => 14,
            'f' => 15,
            _ => {
                proof {
                    assert(spec_hex_val(h@[off as int + k as int]) is None);
                }
                return None;
            },
        };
        proof {
            assert(spec_hex_val(h@[off as int + k as int]) == Some(d as int));
        }
        let new_acc = acc.wrapping_mul(16).wrapping_add(d);
        proof {
            lemma_wrapping_acc(acc, d, new_acc);
        }
        acc = new_acc;
        k += 1;
    }
    Some(acc)
}

/// The wrapping accumulator step equals the modular one.
proof fn lemma_wrapping_acc(acc: u64, d: u64, new_acc: u64)
    requires
        d < 16,
        new_acc == vstd::wrapping::u64_specs::wrapping_add(
            vstd::wrapping::u64_specs::wrapping_mul(acc, 16),
            d,
        ),
    ensures
        new_acc as int == (acc as int * 16 + d) % 0x1_0000_0000_0000_0000,
{
    let m = 0x1_0000_0000_0000_0000int;
    let prod = acc as int * 16;
    assert(0 <= prod && prod < 16 * m) by (nonlinear_arith)
        requires
            0 <= acc < m,
            prod == acc as int * 16,
    ;
    let pm = prod % m;
    vstd::arithmetic::div_mod::lemma_mod_bound(prod, m);
    assert(vstd::wrapping::u64_specs::wrapping_mul(acc, 16) as int == pm) by {
        assert((((acc as nat) * 16) % (m as nat)) as int == pm) by (nonlinear_arith)
            requires
                prod == acc as int * 16,
                pm == prod % m,
                m == 0x1_0000_0000_0000_0000,
        ;
    }
    vstd::arithmetic::div_mod::lemma_add_mod_noop(prod, d as int, m);
    vstd::arithmetic::div_mod::lemma_mod_twice(prod, m);
    vstd::arithmetic::div_mod::lemma_small_mod(d as nat, m as nat);
    assert((pm + d) % m == (prod + d) % m);
    if pm + d < m {
        vstd::arithmetic::div_mod::lemma_small_mod((pm + d) as nat, m as nat);
    } else {
        vstd::arithmetic::div_mod::lemma_fundamental_div_mod_converse(pm + d, m, 1, pm + d - m);
    }
}

/// Parsing the fixed-width hex of `n` yields `n` back.
proof fn lemma_parse_hex_round_trip(sq: Seq<char>, off: int, n: u64)
    requires
        0 <= off,
        off + 16 <= sq.len(),
        forall|i: int| 0 <= i < 16 ==> sq[off + i] == spec_hex(n)[i],
    ensures
        spec_parse_hex(sq, off, 0, 0) == Some(n),
{
    lemma_parse_hex_step(sq, off, n, 0);
}

/// The accumulator after `k` digits: the top `k` nibbles of `n`.
pub open spec fn spec_acc_at(n: u64, k: int) -> u64 {
    if k <= 0 {
        0u64
    } else {
        n >> (((16 - k) * 4) as u64)
    }
}

/// Inductive step: having consumed `k` digits, the accumulator holds the
/// top `k` nibbles, and the remaining digits complete the value.
proof fn lemma_parse_hex_step(sq: Seq<char>, off: int, n: u64, k: int)
    requires
        0 <= off,
        off + 16 <= sq.len(),
        0 <= k <= 16,
        forall|i: int| 0 <= i < 16 ==> sq[off + i] == spec_hex(n)[i],
    ensures
        spec_parse_hex(sq, off, k, spec_acc_at(n, k)) == Some(n),
    decreases 16 - k,
{
    if k == 16 {
        assert(n >> 4u64 == spec_acc_at(n, 16) ==> true);
        assert(spec_acc_at(n, 16) == n >> 0u64);
        assert(n >> 0u64 == n) by (bit_vector);
    } else {
        let acc = spec_acc_at(n, k);
        let d = spec_nibble(n, k);
        assert(spec_hex(n)[k] == spec_hex_char(spec_nibble(n, k)));
        assert(sq[off + k] == spec_hex_char(d));
        let sh: u64 = ((15 - k) * 4) as u64;
        assert(0 <= d < 16) by {
            assert((n >> sh) & 0xF < 16) by (bit_vector);
        }
        lemma_hex_char_val(d);
        let hi = acc;
        let nib = (n >> sh) & 0xF;
        let next = spec_acc_at(n, k + 1);
        if k == 0 {
            assert(hi == 0);
            assert(next == n >> 60u64);
            assert((n >> 60u64) & 0xF == n >> 60u64) by (bit_vector);
            assert(nib == n >> 60u64) by {
                assert(sh == 60);
            }
            assert((0u64 as int * 16 + nib) % 0x1_0000_0000_0000_0000 == nib as int) by {
                vstd::arithmetic::div_mod::lemma_small_mod(
                    nib as nat,
                    0x1_0000_0000_0000_0000nat,
                );
            }
        } else {
            let sh2: u64 = ((16 - k) * 4) as u64;
            assert(hi == n >> sh2);
            assert(next == n >> sh);
            assert(16 * hi + nib == n >> sh && hi <= 0x0FFF_FFFF_FFFF_FFFF) by (bit_vector)
                requires
                    sh2 == sh + 4,
                    sh <= 60,
                    hi == n >> sh2,
                    nib == (n >> sh) & 0xF,
            ;
            assert((hi as int * 16 + nib) % 0x1_0000_0000_0000_0000 == (n >> sh) as int) by {
                assert(hi as int * 16 + nib < 0x1_0000_0000_0000_0000) by (nonlinear_arith)
                    requires
                        hi <= 0x0FFF_FFFF_FFFF_FFFF,
                        nib < 16,
                ;
                assert(hi as int * 16 + nib == 16 * (hi as int) + nib) by (nonlinear_arith);
                vstd::arithmetic::div_mod::lemma_small_mod(
                    (hi as int * 16 + nib) as nat,
                    0x1_0000_0000_0000_0000nat,
                );
            }
        }
        lemma_parse_hex_step(sq, off, n, k + 1);
    }
}

/// Checks a client secret against a stored record: `Yes` exactly when the
/// record is well-formed under version 0 and the hash matches.
pub fn check_secret(s: &Secret, hash: &str) -> (r: SecretMatch)
    requires
        hash@.len() < 0x1000,
    ensures
        (r == SecretMatch::Yes) == spec_check_ok(*s, hash@),
        r != SecretMatch::YesNeedsRehash,
{
    let n = hash.unicode_len();
    if n != 52 {
        return SecretMatch::No;
    }
    if !(hash.get_char(0) == '0') || !(hash.get_char(1) == ';') || !(hash.get_char(18) == ';')
        || !(hash.get_char(35) == ';') {
        return SecretMatch::No;
    }
    let p0 = match parse_hex(hash, 2) {
        Some(v) => v,
        None => {
            return SecretMatch::No;
        },
    };
    let p1 = match parse_hex(hash, 19) {
        Some(v) => v,
        None => {
            return SecretMatch::No;
        },
    };
    let p2 = match parse_hex(hash, 36) {
        Some(v) => v,
        None => {
            return SecretMatch::No;
        },
    };
    let expect = keyed_hash(p0, p1, s);
    if p2 == expect {
        SecretMatch::Yes
    } else {
        SecretMatch::No
    }
}

/// A record produced by `hash_secret_with` always verifies: the format and
/// hash round-trip through the checker.
pub proof fn lemma_hash_then_check(s: Secret, salt0: u64, salt1: u64)
    ensures
        spec_check_ok(
            s,
            spec_secret_string(salt0, salt1, spec_keyed_hash(salt0, salt1, s)),
        ),
{
    let h = spec_keyed_hash(salt0, salt1, s);
    let sq = spec_secret_string(salt0, salt1, h);
    assert(sq.len() == 52);
    assert(sq[0] == '0' && sq[1] == ';' && sq[18] == ';' && sq[35] == ';');
    assert forall|i: int| 0 <= i < 16 implies sq[2 + i] == spec_hex(salt0)[i] by {}
    assert forall|i: int| 0 <= i < 16 implies sq[19 + i] == spec_hex(salt1)[i] by {}
    assert forall|i: int| 0 <= i < 16 implies sq[36 + i] == spec_hex(h)[i] by {}
    lemma_parse_hex_round_trip(sq, 2, salt0);
    lemma_parse_hex_round_trip(sq, 19, salt1);
    lemma_parse_hex_round_trip(sq, 36, h);
}

/// What the login flow decides for a stored record (or its absence).
#[derive(Clone, Copy, PartialEq, Eq, Structural, Debug)]
pub enum LoginOutcome {
    Denied,
    Accepted,
}

/// The decision half of `login`: the host looks the name up and performs
/// the reply; a missing or non-matching record is denied.  With only
/// version 0 in use no re-hash is ever required, so the stored record is
/// never rewritten: repeated logins keep succeeding against the same hash.
pub fn login_decision(s: &Secret, stored: Option<&str>) -> (r: LoginOutcome)
    requires
        match stored {
            Some(h) => h@.len() < 0x1000,
            None => true,
        },
    ensures
        (r == LoginOutcome::Accepted) == match stored {
            Some(h) => spec_check_ok(*s, h@),
            None => false,
        },
{
    match stored {
        Some(h) => {
            match check_secret(s, h) {
                SecretMatch::Yes => LoginOutcome::Accepted,
                SecretMatch::No => LoginOutcome::Denied,
                SecretMatch::YesNeedsRehash => LoginOutcome::Accepted,
            }
        },
        None => LoginOutcome::Denied,
    }
}

} // verus!
