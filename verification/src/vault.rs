//! Where the index of a vault is kept: in a folder of the application's own,
//! named by a hash of the vault's path.
use vstd::prelude::*;

verus! {

/// One step of the FNV-1a hash: the byte is mixed in, and the product is taken
/// modulo two to the 64th.
pub open spec fn fnv_step(hash: u64, byte: u8) -> u64 {
    (((hash ^ byte as u64) as int * 0x100_0000_01b3) % 0x1_0000_0000_0000_0000) as u64
}

/// The 64-bit FNV-1a hash of some bytes.
pub open spec fn fnv1a(bytes: Seq<u8>) -> u64
    decreases bytes.len(),
{
    if bytes.len() == 0 {
        0xcbf2_9ce4_8422_2325
    } else {
        fnv_step(fnv1a(bytes.drop_last()), bytes.last())
    }
}

/// The lowercase digit of a number below 16.
pub open spec fn hex_digit(d: int) -> char {
    if d < 10 {
        (d + '0' as int) as char
    } else {
        (d - 10 + 'a' as int) as char
    }
}

/// The last `n` hexadecimal digits of a number.
pub open spec fn hex_text(x: nat, n: nat) -> Seq<char>
    decreases n,
{
    if n == 0 {
        Seq::empty()
    } else {
        hex_text(x / 16, (n - 1) as nat).push(hex_digit((x % 16) as int))
    }
}

/// The name of the folder of the vault at `path`.
pub open spec fn key_text(path: Seq<char>) -> Seq<char> {
    hex_text(fnv1a(vstd::utf8::encode_utf8(path)) as nat, 16)
}

fn hash_bytes(bytes: &[u8]) -> (hash: u64)
    ensures
        hash == fnv1a(bytes@),
{
    let mut hash: u64 = 0xcbf2_9ce4_8422_2325;
    let mut i: usize = 0;
    assert(bytes@.take(0).len() == 0);
    while i < bytes.len()
        invariant
            i <= bytes@.len(),
            hash == fnv1a(bytes@.take(i as int)),
        decreases bytes@.len() - i,
    {
        let ghost next = bytes@.take(i + 1);
        assert(next.drop_last() =~= bytes@.take(i as int));
        let mixed = hash ^ (bytes[i] as u64);
        hash = mixed.wrapping_mul(0x100_0000_01b3);
        i += 1;
    }
    assert(bytes@.take(i as int) =~= bytes@);
    hash
}

fn digit(d: u8) -> (c: char)
    requires
        d < 16,
    ensures
        c == hex_digit(d as int),
{
    if d < 10 {
        (d + 48u8) as char
    } else {
        (d - 10 + 97u8) as char
    }
}

fn hex(x: u64, n: usize) -> (r: String)
    ensures
        r@ == hex_text(x as nat, n as nat),
    decreases n,
{
    if n == 0 {
        return String::new();
    }
    let mut r = hex(x / 16, n - 1);
    r.push(digit((x % 16) as u8));
    r
}

/// A stable folder name for the vault at the canonical path `path`: the FNV-1a
/// hash of the path, as 16 hexadecimal digits.
pub fn vault_key(path: &str) -> (r: String)
    ensures
        r@ == key_text(path@),
{
    hex(hash_bytes(path.as_bytes()), 16)
}

/// Where the database of an index is: in the folder `key` of the folder `app` of
/// the directory `base`, under the name `file`.
#[derive(Debug)]
pub struct IndexPath<P> {
    pub base: P,
    pub app: String,
    pub key: String,
    pub file: String,
}

/// The place of the index of the vault at the canonical path `vault`, under the
/// data directory of the system.
pub fn index_path<P>(data_dir: Option<P>, vault: &str) -> (r: Result<IndexPath<P>, String>)
    ensures
        match data_dir {
            Some(base) => {
                &&& r matches Ok(p)
                &&& p.base == base
                &&& p.app@ == "FlintBrain"@
                &&& p.key@ == key_text(vault@)
                &&& p.file@ == "index.db"@
            },
            None => r matches Err(e) && e@ == "could not locate the OS data directory"@,
        },
{
    match data_dir {
        Some(base) => Ok(
            IndexPath {
                base,
                app: "FlintBrain".to_owned(),
                key: vault_key(vault),
                file: "index.db".to_owned(),
            },
        ),
        None => Err("could not locate the OS data directory".to_owned()),
    }
}

/// Whether `c` is a lowercase hexadecimal digit.
pub open spec fn is_hex_digit(c: char) -> bool {
    '0' <= c <= '9' || 'a' <= c <= 'f'
}

proof fn lemma_hex_text(x: nat, n: nat)
    ensures
        hex_text(x, n).len() == n,
        forall|i: int| 0 <= i < n ==> is_hex_digit(#[trigger] hex_text(x, n)[i]),
    decreases n,
{
    if n > 0 {
        lemma_hex_text(x / 16, (n - 1) as nat);
    }
}

/// Sixteen to the `n`th.
spec fn pow16(n: nat) -> nat
    decreases n,
{
    if n == 0 {
        1
    } else {
        16 * pow16((n - 1) as nat)
    }
}

proof fn lemma_hex_injective(x: nat, y: nat, n: nat)
    requires
        hex_text(x, n) == hex_text(y, n),
        x < pow16(n),
        y < pow16(n),
    ensures
        x == y,
    decreases n,
{
    if n > 0 {
        let m = (n - 1) as nat;
        let (a, b) = (hex_text(x, n), hex_text(y, n));
        lemma_hex_text(x / 16, m);
        lemma_hex_text(y / 16, m);
        assert(a.last() == b.last());
        assert(a.drop_last() =~= hex_text(x / 16, m));
        assert(b.drop_last() =~= hex_text(y / 16, m));
        lemma_hex_injective(x / 16, y / 16, m);
    }
}

/// The name of a vault's folder is 16 lowercase hexadecimal digits.
pub proof fn law_key_is_a_folder_name(path: Seq<char>)
    ensures
        key_text(path).len() == 16,
        forall|i: int| 0 <= i < 16 ==> is_hex_digit(#[trigger] key_text(path)[i]),
{
    lemma_hex_text(fnv1a(vstd::utf8::encode_utf8(path)) as nat, 16);
}

/// Two vaults share a folder exactly if their paths have one hash.
pub proof fn law_key_tells_hashes_apart(a: Seq<char>, b: Seq<char>)
    ensures
        (key_text(a) == key_text(b)) <==> (fnv1a(vstd::utf8::encode_utf8(a)) == fnv1a(
            vstd::utf8::encode_utf8(b),
        )),
{
    let x = fnv1a(vstd::utf8::encode_utf8(a)) as nat;
    let y = fnv1a(vstd::utf8::encode_utf8(b)) as nat;
    if key_text(a) == key_text(b) {
        reveal_with_fuel(pow16, 17);
        lemma_hex_injective(x, y, 16);
    }
}

/// The number that a lowercase hexadecimal digit stands for.
pub open spec fn digit_value(c: char) -> int {
    if '0' <= c <= '9' {
        c as int - 48
    } else {
        c as int - 87
    }
}

/// The number that hexadecimal digits stand for, the first the weightiest.
pub open spec fn hex_value(digits: Seq<char>) -> int
    decreases digits.len(),
{
    if digits.len() == 0 {
        0
    } else {
        16 * hex_value(digits.drop_last()) + digit_value(digits.last())
    }
}

proof fn lemma_hex_value(x: nat, n: nat)
    requires
        x < pow16(n),
    ensures
        hex_value(hex_text(x, n)) == x,
    decreases n,
{
    if n > 0 {
        lemma_hex_value(x / 16, (n - 1) as nat);
        assert(hex_text(x, n).drop_last() =~= hex_text(x / 16, (n - 1) as nat));
    }
}

/// Read as a hexadecimal number, the name of a vault's folder is the hash of all
/// the bytes of its path.
pub proof fn law_key_is_the_hash(path: Seq<char>)
    ensures
        hex_value(key_text(path)) == fnv1a(vstd::utf8::encode_utf8(path)),
{
    reveal_with_fuel(pow16, 17);
    lemma_hex_value(fnv1a(vstd::utf8::encode_utf8(path)) as nat, 16);
}

/// The hash starts at its fixed offset, and each further byte is mixed into the
/// low byte of the hash so far before that is multiplied by the prime.
pub proof fn law_hash_takes_byte_by_byte(bytes: Seq<u8>, byte: u8)
    ensures
        fnv1a(Seq::empty()) == 14695981039346656037,
        fnv1a(bytes.push(byte)) as int == ((fnv1a(bytes) ^ byte as u64) as int * 1099511628211)
            % 18446744073709551616,
{
    assert(bytes.push(byte).drop_last() =~= bytes);
}

} // verus!
