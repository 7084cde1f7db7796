//! The archive's keyed table, the filename hash and the table cipher.
use vstd::prelude::*;

verus! {

/// The seed of the table generator after `n` steps.
pub open spec fn seed_at(n: nat) -> nat
    decreases n,
{
    if n == 0 {
        0x0010_0001
    } else {
        (seed_at((n - 1) as nat) * 125 + 3) % 0x2A_AAAB
    }
}

/// The table entry of hash type `j` for byte `i`: the low halves of two
/// consecutive generator seeds, the first one on top.
pub open spec fn table_entry(i: nat, j: nat) -> u32 {
    let k = 2 * (i * 5 + j);
    ((seed_at(k + 1) % 0x1_0000) * 0x1_0000 + seed_at(k + 2) % 0x1_0000) as u32
}

/// The whole table: 256 entries for each of the 5 hash types.
pub open spec fn is_crypt_table(t: Seq<u32>) -> bool {
    &&& t.len() == 1280
    &&& forall|j: nat, i: nat| j < 5 && i < 256 ==> #[trigger] t[(j * 256 + i) as int] == table_entry(i, j)
}

/// Builds the table from the fixed seed.
pub fn build_table() -> (r: Vec<u32>)
    ensures
        is_crypt_table(r@),
{
    let mut t: Vec<u32> = Vec::new();
    let mut k: usize = 0;
    while k < 1280
        invariant
            k <= 1280,
            t@.len() == k,
        decreases 1280 - k,
    {
        t.push(0);
        k = k + 1;
    }
    let mut seed: u32 = 0x0010_0001;
    let mut i: usize = 0;
    while i < 256
        invariant
            i <= 256,
            t@.len() == 1280,
            seed as nat == seed_at(2 * (i * 5) as nat),
            forall|j: nat, i2: nat| j < 5 && i2 < i ==> #[trigger] t@[(j * 256 + i2) as int] == table_entry(i2, j),
        decreases 256 - i,
    {
        let mut j: usize = 0;
        while j < 5
            invariant
                i < 256,
                j <= 5,
                t@.len() == 1280,
                seed as nat == seed_at(2 * (i * 5 + j) as nat),
                forall|j2: nat, i2: nat| j2 < 5 && i2 < i ==> #[trigger] t@[(j2 * 256 + i2) as int] == table_entry(i2, j2),
                forall|j2: nat| j2 < j ==> #[trigger] t@[(j2 * 256 + i) as int] == table_entry(i as nat, j2),
            decreases 5 - j,
        {
            let ghost k0: nat = 2 * (i * 5 + j) as nat;
            seed = (seed * 125 + 3) % 0x2A_AAAB;
            let hi = seed % 0x1_0000;
            seed = (seed * 125 + 3) % 0x2A_AAAB;
            let lo = seed % 0x1_0000;
            assert(seed_at(k0 + 1) == (seed_at(k0) * 125 + 3) % 0x2A_AAAB);
            assert(seed_at(k0 + 2) == (seed_at(k0 + 1) * 125 + 3) % 0x2A_AAAB);
            let ghost old_t = t@;
            t.set(j * 256 + i, hi * 0x1_0000 + lo);
            assert forall|j2: nat, i2: nat| j2 < 5 && i2 < i implies #[trigger] t@[(j2 * 256 + i2) as int] == table_entry(i2, j2) by {
                assert(old_t[(j2 * 256 + i2) as int] == table_entry(i2, j2));
            }
            assert forall|j2: nat| j2 < j + 1 implies #[trigger] t@[(j2 * 256 + i) as int] == table_entry(i as nat, j2) by {
                if j2 < j {
                    assert(old_t[(j2 * 256 + i) as int] == table_entry(i as nat, j2));
                }
            }
            j = j + 1;
        }
        i = i + 1;
    }
    t
}

/// ASCII upper case of a byte.
pub open spec fn upper(b: u8) -> u8 {
    if 97 <= b <= 122 {
        (b - 32) as u8
    } else {
        b
    }
}

/// The two hash seeds after the first `n` bytes of `s`.
pub open spec fn hash_state(t: Seq<u32>, s: Seq<u8>, hash_type: nat, n: nat) -> (u32, u32)
    decreases n,
{
    if n == 0 || n > s.len() {
        (0x7FED_7FED, 0xEEEE_EEEE)
    } else {
        let (seed1, seed2) = hash_state(t, s, hash_type, (n - 1) as nat);
        let ch = upper(s[n - 1]);
        let value = t[(hash_type * 256 + ch) as int];
        let s1 = value ^ seed1.wrapping_add(seed2);
        let s2 = (ch as u32).wrapping_add(s1).wrapping_add(seed2).wrapping_add(
            seed2.wrapping_mul(32),
        ).wrapping_add(3);
        (s1, s2)
    }
}

/// The hash of `s` under `hash_type` (0: table offset, 1 and 2: the two
/// name checks, 3: table key).
pub open spec fn hash_spec(t: Seq<u32>, s: Seq<u8>, hash_type: nat) -> u32 {
    hash_state(t, s, hash_type, s.len()).0
}

/// Hashes `input`, upper-casing ASCII letters first.
pub fn hash(table: &Vec<u32>, input: &[u8], hash_type: u32) -> (r: u32)
    requires
        table@.len() == 1280,
        hash_type < 5,
    ensures
        r == hash_spec(table@, input@, hash_type as nat),
{
    let mut seed1: u32 = 0x7FED_7FED;
    let mut seed2: u32 = 0xEEEE_EEEE;
    let mut k: usize = 0;
    while k < input.len()
        invariant
            table@.len() == 1280,
            hash_type < 5,
            k <= input@.len(),
            (seed1, seed2) == hash_state(table@, input@, hash_type as nat, k as nat),
        decreases input.len() - k,
    {
        let b = input[k];
        let ch: u8 = if 97 <= b && b <= 122 {
            b - 32
        } else {
            b
        };
        let value = table[(hash_type * 256) as usize + ch as usize];
        let s1 = value ^ seed1.wrapping_add(seed2);
        seed2 = (ch as u32).wrapping_add(s1).wrapping_add(seed2).wrapping_add(
            seed2.wrapping_mul(32),
        ).wrapping_add(3);
        seed1 = s1;
        k = k + 1;
    }
    seed1
}

/// The little-endian 32-bit word at byte `at`.
pub open spec fn word_at(data: Seq<u8>, at: int) -> u32 {
    (data[at] as int + data[at + 1] as int * 0x100 + data[at + 2] as int * 0x1_0000 + data[at + 3] as int
        * 0x100_0000) as u32
}

/// The cipher state (key seed, second seed) and plain words after `n` words.
pub open spec fn decrypt_state(t: Seq<u32>, data: Seq<u8>, key: u32, n: nat) -> (u32, u32, Seq<u32>)
    decreases n,
{
    if n == 0 {
        (key, 0xEEEE_EEEE, Seq::empty())
    } else {
        let (seed1, seed2, out) = decrypt_state(t, data, key, (n - 1) as nat);
        let s2 = seed2.wrapping_add(t[0x400 + (seed1 & 0xFF) as int]);
        let value = word_at(data, 4 * (n - 1)) ^ seed1.wrapping_add(s2);
        let s1 = ((!seed1) << 21u32).wrapping_add(0x1111_1111) | (seed1 >> 11u32);
        let s2b = value.wrapping_add(s2).wrapping_add(s2.wrapping_mul(32)).wrapping_add(3);
        (s1, s2b, out.push(value))
    }
}

/// The plain words of `data` under `key`.
pub open spec fn decrypt_words(t: Seq<u32>, data: Seq<u8>, key: u32) -> Seq<u32> {
    decrypt_state(t, data, key, data.len() / 4).2
}

/// The plain bytes: each plain word written back little-endian.
pub open spec fn decrypt_spec(t: Seq<u32>, data: Seq<u8>, key: u32) -> Seq<u8> {
    let w = decrypt_words(t, data, key);
    Seq::new(data.len(), |k: int| ((w[k / 4] as int / pow256(k % 4)) % 0x100) as u8)
}

pub open spec fn pow256(m: int) -> int {
    if m == 0 {
        1
    } else if m == 1 {
        0x100
    } else if m == 2 {
        0x1_0000
    } else {
        0x100_0000
    }
}

/// Decrypts `data`, a whole number of 32-bit words, with `key`.
pub fn decrypt(table: &Vec<u32>, data: &[u8], key: u32) -> (r: Vec<u8>)
    requires
        table@.len() == 1280,
        data@.len() % 4 == 0,
    ensures
        r@ == decrypt_spec(table@, data@, key),
{
    let mut seed1: u32 = key;
    let mut seed2: u32 = 0xEEEE_EEEE;
    let mut out: Vec<u8> = Vec::new();
    let ghost mut words: Seq<u32> = Seq::empty();
    let n = data.len() / 4;
    let mut k: usize = 0;
    while k < n
        invariant
            table@.len() == 1280,
            n == data@.len() / 4,
            data@.len() % 4 == 0,
            k <= n,
            (seed1, seed2, words) == decrypt_state(table@, data@, key, k as nat),
            words.len() == k,
            out@.len() == 4 * k,
            forall|m: int| 0 <= m < 4 * k ==> #[trigger] out@[m] == ((words[m / 4] as int / pow256(m % 4)) % 0x100) as u8,
        decreases n - k,
    {
        assert(4 * (data@.len() / 4) == data@.len());
        assert(4 * k + 4 <= data@.len());
        assert(data@.len() == data.len());
        let at = 4 * k;
        let w: u32 = data[at] as u32 + data[at + 1] as u32 * 0x100 + data[at + 2] as u32 * 0x1_0000
            + data[at + 3] as u32 * 0x100_0000;
        assert(seed1 & 0xFF <= 0xFF) by (bit_vector);
        seed2 = seed2.wrapping_add(table[0x400 + (seed1 & 0xFF) as usize]);
        let value = w ^ seed1.wrapping_add(seed2);
        seed1 = ((!seed1) << 21u32).wrapping_add(0x1111_1111) | (seed1 >> 11u32);
        seed2 = value.wrapping_add(seed2).wrapping_add(seed2.wrapping_mul(32)).wrapping_add(3);
        let ghost old_out = out@;
        out.push((value % 0x100) as u8);
        out.push((value / 0x100 % 0x100) as u8);
        out.push((value / 0x1_0000 % 0x100) as u8);
        out.push((value / 0x100_0000 % 0x100) as u8);
        proof {
            words = words.push(value);
            assert forall|m: int| 0 <= m < 4 * (k + 1) implies #[trigger] out@[m] == ((words[m / 4] as int / pow256(m % 4)) % 0x100) as u8 by {
                if m < 4 * k {
                    assert(old_out[m] == out@[m]);
                } else {
                    assert(m / 4 == k);
                }
            }
        }
        k = k + 1;
    }
    assert(out@ =~= decrypt_spec(table@, data@, key));
    out
}

/// Any two tables that `build_table` can return are the same.
pub proof fn lemma_crypt_table_unique(t1: Seq<u32>, t2: Seq<u32>)
    requires
        is_crypt_table(t1),
        is_crypt_table(t2),
    ensures
        t1 == t2,
{
    assert forall|k: int| 0 <= k < 1280 implies t1[k] == t2[k] by {
        let j: nat = (k / 256) as nat;
        let i: nat = (k % 256) as nat;
        assert(k == j * 256 + i);
        assert(t1[(j * 256 + i) as int] == table_entry(i, j));
        assert(t2[(j * 256 + i) as int] == table_entry(i, j));
    }
    assert(t1 =~= t2);
}

/// The hash is a function of the upper-cased name alone: a freshly built
/// table always gives the same value, and `a` hashes as `A` does.
pub proof fn lemma_hash_case_blind(t1: Seq<u32>, t2: Seq<u32>, s1: Seq<u8>, s2: Seq<u8>, hash_type: nat)
    requires
        is_crypt_table(t1),
        is_crypt_table(t2),
        s1.len() == s2.len(),
        forall|i: int| 0 <= i < s1.len() ==> upper(#[trigger] s1[i]) == upper(s2[i]),
    ensures
        hash_spec(t1, s1, hash_type) == hash_spec(t2, s2, hash_type),
{
    lemma_crypt_table_unique(t1, t2);
    lemma_hash_state_case_blind(t1, s1, s2, hash_type, s1.len());
}

proof fn lemma_hash_state_case_blind(t: Seq<u32>, s1: Seq<u8>, s2: Seq<u8>, hash_type: nat, n: nat)
    requires
        s1.len() == s2.len(),
        forall|i: int| 0 <= i < s1.len() ==> upper(#[trigger] s1[i]) == upper(s2[i]),
    ensures
        hash_state(t, s1, hash_type, n) == hash_state(t, s2, hash_type, n),
    decreases n,
{
    if n > 0 && n <= s1.len() {
        lemma_hash_state_case_blind(t, s1, s2, hash_type, (n - 1) as nat);
        assert(upper(s1[n - 1]) == upper(s2[n - 1]));
    }
}

} // verus!
