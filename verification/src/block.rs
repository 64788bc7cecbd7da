//! Chain entries. A block seals its content under a 256-bit digest of a
//! canonical textual record: index, timestamp, transaction list,
//! predecessor hash, and the mining address written as concatenated
//! decimal digits.

use vstd::prelude::*;
use vstd::string::{StringExecFns, StringSliceAdditionalSpecFns};
use vstd::utf8::encode_utf8;
use crate::mining::MiningResult;

verus! {

/// The decimal digit character for `d < 10`.
pub open spec fn digit_char(d: nat) -> char {
    if d == 0 {
        '0'
    } else if d == 1 {
        '1'
    } else if d == 2 {
        '2'
    } else if d == 3 {
        '3'
    } else if d == 4 {
        '4'
    } else if d == 5 {
        '5'
    } else if d == 6 {
        '6'
    } else if d == 7 {
        '7'
    } else if d == 8 {
        '8'
    } else {
        '9'
    }
}

/// The decimal digits of `n`, most significant first.
pub open spec fn u64_digits(n: nat) -> Seq<char>
    decreases n,
{
    if n < 10 {
        seq![digit_char(n)]
    } else {
        u64_digits(n / 10).push(digit_char(n % 10))
    }
}

/// The single decimal digit `d` as a string slice.
fn digit_str(d: u64) -> (r: &'static str)
    requires
        d < 10,
    ensures
        r@ == seq![digit_char(d as nat)],
{
    proof {
        reveal_strlit("0");
        reveal_strlit("1");
        reveal_strlit("2");
        reveal_strlit("3");
        reveal_strlit("4");
        reveal_strlit("5");
        reveal_strlit("6");
        reveal_strlit("7");
        reveal_strlit("8");
        reveal_strlit("9");
    }
    let r: &'static str = if d == 0 {
        "0"
    } else if d == 1 {
        "1"
    } else if d == 2 {
        "2"
    } else if d == 3 {
        "3"
    } else if d == 4 {
        "4"
    } else if d == 5 {
        "5"
    } else if d == 6 {
        "6"
    } else if d == 7 {
        "7"
    } else if d == 8 {
        "8"
    } else {
        "9"
    };
    proof {
        assert(r@ =~= seq![digit_char(d as nat)]);
    }
    r
}

/// Writes `n` in decimal.
pub fn u64_to_string(n: u64) -> (r: String)
    ensures
        r@ == u64_digits(n as nat),
    decreases n,
{
    if n < 10 {
        String::from_str(digit_str(n))
    } else {
        let mut s = u64_to_string(n / 10);
        s.append(digit_str(n % 10));
        s
    }
}

/// A transaction wrapped in double quotes.
pub open spec fn quoted(s: Seq<char>) -> Seq<char> {
    seq!['"'] + s + seq!['"']
}

/// One transaction in the canonical record: its UTF-8 byte length in
/// decimal, then the text itself in double quotes. The length prefix
/// delimits the entry, so no transaction content can imitate the
/// surrounding punctuation and two different lists never share a record.
pub open spec fn tx_entry(s: Seq<char>) -> Seq<char> {
    u64_digits((encode_utf8(s).len() as usize) as nat) + quoted(s)
}

/// The length-prefixed transactions joined by a comma and a space.
pub open spec fn tx_inner(txs: Seq<Seq<char>>) -> Seq<char>
    decreases txs.len(),
{
    if txs.len() == 0 {
        Seq::empty()
    } else if txs.len() == 1 {
        tx_entry(txs[0])
    } else {
        tx_inner(txs.drop_last()) + seq![',', ' '] + tx_entry(txs.last())
    }
}

/// The canonical text of a transaction list: the length-prefixed,
/// quoted entries joined by a comma and a space, inside square brackets.
pub open spec fn tx_chars(txs: Seq<Seq<char>>) -> Seq<char> {
    seq!['['] + tx_inner(txs) + seq![']']
}

/// The character sequences of a vector of strings.
pub open spec fn txs_view(v: Seq<String>) -> Seq<Seq<char>> {
    v.map(|i: int, s: String| s@)
}

/// Writes a transaction list in its canonical text.
pub fn tx_list_string(txs: &Vec<String>) -> (r: String)
    ensures
        r@ == tx_chars(txs_view(txs@)),
{
    proof {
        reveal_strlit("[");
        reveal_strlit("]");
        reveal_strlit(", ");
        reveal_strlit("\"");
    }
    let mut s = String::from_str("[");
    proof {
        assert(s@ =~= seq!['[']);
    }
    let mut i: usize = 0;
    while i < txs.len()
        invariant
            i <= txs.len(),
            s@ == seq!['['] + tx_inner(txs_view(txs@.subrange(0, i as int))),
        decreases txs.len() - i,
    {
        if i > 0 {
            s.append(", ");
            proof {
                reveal_strlit(", ");
            }
        }
        let ln = u64_to_string(txs[i].as_str().len() as u64);
        s.append(ln.as_str());
        s.append("\"");
        s.append(txs[i].as_str());
        s.append("\"");
        proof {
            reveal_strlit(", ");
            reveal_strlit("\"");
            let prev = txs_view(txs@.subrange(0, i as int));
            let cur = txs_view(txs@.subrange(0, i + 1));
            assert(cur.drop_last() =~= prev);
            assert(cur.last() == txs@[i as int]@);
            if i == 0 {
                assert(s@ =~= seq!['['] + tx_inner(cur));
            } else {
                assert(s@ =~= seq!['['] + tx_inner(cur));
            }
        }
        i = i + 1;
    }
    s.append("]");
    proof {
        reveal_strlit("]");
        assert(txs@.subrange(0, txs@.len() as int) =~= txs@);
        assert(s@ =~= seq!['['] + tx_inner(txs_view(txs@)) + seq![']']);
    }
    s
}

/// The address digits written one after another, with no separator.
pub open spec fn addr_chars(a: Seq<u8>) -> Seq<char>
    decreases a.len(),
{
    if a.len() == 0 {
        Seq::empty()
    } else {
        addr_chars(a.drop_last()) + u64_digits(a.last() as nat)
    }
}

/// Writes the address digits one after another.
pub fn addr_string(a: &Vec<u8>) -> (r: String)
    ensures
        r@ == addr_chars(a@),
{
    let mut s = String::new();
    let mut i: usize = 0;
    while i < a.len()
        invariant
            i <= a.len(),
            s@ == addr_chars(a@.subrange(0, i as int)),
        decreases a.len() - i,
    {
        let d = u64_to_string(a[i] as u64);
        s.append(d.as_str());
        proof {
            let cur = a@.subrange(0, i + 1);
            assert(cur.drop_last() =~= a@.subrange(0, i as int));
            assert(s@ =~= addr_chars(cur));
        }
        i = i + 1;
    }
    proof {
        assert(a@.subrange(0, a@.len() as int) =~= a@);
    }
    s
}

/// The 256-bit digest that `sha2` computes for the UTF-8 bytes of a
/// text. It depends on the characters alone.
pub uninterp spec fn sha256_of(s: Seq<char>) -> Seq<u8>;

/// Relies on sha2's `Sha256` (through `Digest::digest`): a 32-byte
/// digest of the UTF-8 encoding, determined by the text alone.
#[verifier::external_body]
fn sha256_str(s: &str) -> (r: Vec<u8>)
    ensures
        r@ == sha256_of(s@),
        r@.len() == 32,
{
    <sha2::Sha256 as sha2::Digest>::digest(s.as_bytes()).to_vec()
}

/// The lowercase hexadecimal digit for `d < 16`.
pub open spec fn hex_digit(d: nat) -> char {
    if d == 0 {
        '0'
    } else if d == 1 {
        '1'
    } else if d == 2 {
        '2'
    } else if d == 3 {
        '3'
    } else if d == 4 {
        '4'
    } else if d == 5 {
        '5'
    } else if d == 6 {
        '6'
    } else if d == 7 {
        '7'
    } else if d == 8 {
        '8'
    } else if d == 9 {
        '9'
    } else if d == 10 {
        'a'
    } else if d == 11 {
        'b'
    } else if d == 12 {
        'c'
    } else if d == 13 {
        'd'
    } else if d == 14 {
        'e'
    } else {
        'f'
    }
}

/// Two lowercase hexadecimal digits per byte, high nibble first.
pub open spec fn hex_of(b: Seq<u8>) -> Seq<char> {
    Seq::new(
        (2 * b.len()) as nat,
        |i: int|
            if i % 2 == 0 {
                hex_digit((b[i / 2] as nat) / 16)
            } else {
                hex_digit((b[i / 2] as nat) % 16)
            },
    )
}

/// Relies on hex::encode: two lowercase hexadecimal digits per byte,
/// high nibble first.
#[verifier::external_body]
fn hex_encode(b: &Vec<u8>) -> (r: String)
    ensures
        r@ == hex_of(b@),
{
    hex::encode(b.as_slice())
}

/// One chain entry, sealed by its own hash.
#[derive(Clone, Debug)]
pub struct Block {
    pub index: u64,
    pub timestamp: u64,
    pub transactions: Vec<String>,
    pub previous_hash: String,
    pub hash: String,
    pub mining_result: MiningResult,
}

/// The canonical record a block is hashed over: index and timestamp in
/// decimal, the transaction list text, the predecessor's hash, and the
/// mining address digits with no separator.
pub open spec fn hash_record(b: Block) -> Seq<char> {
    u64_digits(b.index as nat) + u64_digits(b.timestamp as nat) + tx_chars(txs_view(b.transactions@))
        + b.previous_hash@ + addr_chars(b.mining_result.address@)
}

/// The hash a block's stored fields determine.
pub open spec fn block_hash(b: Block) -> Seq<char> {
    hex_of(sha256_of(hash_record(b)))
}

impl Block {
    /// The hexadecimal digest over the block's canonical record. It
    /// depends only on the stored fields, so recomputing it reproduces
    /// the sealed hash exactly as long as no field changed. The result
    /// is always sixty-four hexadecimal characters: two per digest byte.
    pub fn calculate_hash(&self) -> (r: String)
        ensures
            r@ == block_hash(*self),
            r@.len() == 64,
    {
        let mut record = u64_to_string(self.index);
        let ts = u64_to_string(self.timestamp);
        record.append(ts.as_str());
        let txs = tx_list_string(&self.transactions);
        record.append(txs.as_str());
        record.append(self.previous_hash.as_str());
        let addr = addr_string(&self.mining_result.address.0);
        record.append(addr.as_str());
        proof {
            assert(record@ =~= hash_record(*self));
        }
        let digest = sha256_str(record.as_str());
        hex_encode(&digest)
    }
}

} // verus!
