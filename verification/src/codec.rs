//! How a proof travels: as an envelope of bytes that names the hash
//! algorithm and carries the root hash, the block and the whole chain, and as
//! text, which is that envelope written in hexadecimal digits.

use crate::hashing::{bytes_eq, copy_bytes, HashAlgorithm};
use crate::inclusion::{side_view, Conjecture, ChainView, Proof, ProofView, Side};
use vstd::bytes::{
    lemma_auto_spec_u64_to_from_le_bytes, spec_u64_from_le_bytes, spec_u64_to_le_bytes,
    u64_from_le_bytes, u64_to_le_bytes,
};
use vstd::prelude::*;
use vstd::slice::slice_subrange;
use vstd::string::{is_ascii, is_ascii_spec_bytes, StringExecFns, StringSliceAdditionalSpecFns};

verus! {

/// Why an envelope was not decoded.
#[derive(Clone, Copy, Debug, PartialEq, Eq, Hash, Structural)]
pub enum DecodeError {
    /// The envelope names a hash algorithm that is not known.
    AlgorithmMismatch,
    /// The bytes are not an envelope: they end too early, hold a tag that
    /// does not exist, go on after the proof, or are no hexadecimal text.
    Malformed,
}

impl DecodeError {
    /// What went wrong, in words.
    pub fn message(&self) -> (text: String)
        ensures
            text@ == match *self {
                DecodeError::AlgorithmMismatch => "unknown hash algorithm"@,
                DecodeError::Malformed => "malformed proof"@,
            },
    {
        match self {
            DecodeError::AlgorithmMismatch => String::from_str("unknown hash algorithm"),
            DecodeError::Malformed => String::from_str("malformed proof"),
        }
    }
}

/// The name under which an algorithm is written.
pub open spec fn algorithm_name(algorithm: HashAlgorithm) -> Seq<char> {
    match algorithm {
        HashAlgorithm::Sha1 => "SHA1"@,
        HashAlgorithm::Sha256 => "SHA256"@,
        HashAlgorithm::Sha384 => "SHA384"@,
        HashAlgorithm::Sha512 => "SHA512"@,
        HashAlgorithm::Sha512_256 => "SHA512_256"@,
    }
}

/// The algorithm that is written under `name`, if there is one.
pub open spec fn algorithm_named(name: Seq<char>) -> Option<HashAlgorithm> {
    if name == "SHA1"@ {
        Some(HashAlgorithm::Sha1)
    } else if name == "SHA256"@ {
        Some(HashAlgorithm::Sha256)
    } else if name == "SHA384"@ {
        Some(HashAlgorithm::Sha384)
    } else if name == "SHA512"@ {
        Some(HashAlgorithm::Sha512)
    } else if name == "SHA512_256"@ {
        Some(HashAlgorithm::Sha512_256)
    } else {
        None
    }
}

/// The bytes of a text of ASCII characters.
pub open spec fn ascii_bytes(text: Seq<char>) -> Seq<u8> {
    Seq::new(text.len(), |i: int| text[i] as u8)
}

/// The bytes of the name under which an algorithm is written.
pub open spec fn name_bytes(algorithm: HashAlgorithm) -> Seq<u8> {
    ascii_bytes(algorithm_name(algorithm))
}

/// The algorithm whose name has the bytes `name`, if there is one.
pub open spec fn algorithm_with_name_bytes(name: Seq<u8>) -> Option<HashAlgorithm> {
    if name == name_bytes(HashAlgorithm::Sha1) {
        Some(HashAlgorithm::Sha1)
    } else if name == name_bytes(HashAlgorithm::Sha256) {
        Some(HashAlgorithm::Sha256)
    } else if name == name_bytes(HashAlgorithm::Sha384) {
        Some(HashAlgorithm::Sha384)
    } else if name == name_bytes(HashAlgorithm::Sha512) {
        Some(HashAlgorithm::Sha512)
    } else if name == name_bytes(HashAlgorithm::Sha512_256) {
        Some(HashAlgorithm::Sha512_256)
    } else {
        None
    }
}

/// The five names, character by character as far as they differ.
proof fn lemma_names()
    ensures
        "SHA1"@.len() == 4,
        "SHA256"@.len() == 6,
        "SHA384"@.len() == 6,
        "SHA512"@.len() == 6,
        "SHA512_256"@.len() == 10,
        "SHA256"@[3] == '2',
        "SHA384"@[3] == '3',
        "SHA512"@[3] == '5',
        forall|algorithm: HashAlgorithm| vstd::utf8::is_ascii_chars(algorithm_name(algorithm)),
{
    reveal_strlit("SHA1");
    reveal_strlit("SHA256");
    reveal_strlit("SHA384");
    reveal_strlit("SHA512");
    reveal_strlit("SHA512_256");
    assert forall|algorithm: HashAlgorithm|
        vstd::utf8::is_ascii_chars(algorithm_name(algorithm)) by {
        match algorithm {
            HashAlgorithm::Sha1 => assert(vstd::utf8::is_ascii_chars("SHA1"@)),
            HashAlgorithm::Sha256 => assert(vstd::utf8::is_ascii_chars("SHA256"@)),
            HashAlgorithm::Sha384 => assert(vstd::utf8::is_ascii_chars("SHA384"@)),
            HashAlgorithm::Sha512 => assert(vstd::utf8::is_ascii_chars("SHA512"@)),
            HashAlgorithm::Sha512_256 => assert(vstd::utf8::is_ascii_chars("SHA512_256"@)),
        }
    }
}

/// The name of an algorithm leads back to the algorithm.
pub proof fn lemma_name_round_trip(algorithm: HashAlgorithm)
    ensures
        algorithm_named(algorithm_name(algorithm)) == Some(algorithm),
        algorithm_with_name_bytes(name_bytes(algorithm)) == Some(algorithm),
{
    lemma_names();
    assert(name_bytes(HashAlgorithm::Sha1).len() == 4);
    assert(name_bytes(HashAlgorithm::Sha512_256).len() == 10);
    assert(name_bytes(HashAlgorithm::Sha256)[3] == 50);
    assert(name_bytes(HashAlgorithm::Sha384)[3] == 51);
    assert(name_bytes(HashAlgorithm::Sha512)[3] == 53);
}

/// The name under which `algorithm` is written.
pub fn name_of(algorithm: HashAlgorithm) -> (name: &'static str)
    ensures
        name@ == algorithm_name(algorithm),
{
    match algorithm {
        HashAlgorithm::Sha1 => "SHA1",
        HashAlgorithm::Sha256 => "SHA256",
        HashAlgorithm::Sha384 => "SHA384",
        HashAlgorithm::Sha512 => "SHA512",
        HashAlgorithm::Sha512_256 => "SHA512_256",
    }
}

/// Writes an algorithm as its name.
pub fn serialize(algorithm: HashAlgorithm) -> (name: String)
    ensures
        name@ == algorithm_name(algorithm),
{
    String::from_str(name_of(algorithm))
}

/// Whether two texts are the same.
fn same_text(a: &str, b: &str) -> (same: bool)
    ensures
        same == (a@ == b@),
{
    let left = a.to_owned();
    let right = b.to_owned();
    left == right
}

/// Reads an algorithm from its name. A name that no algorithm has is an
/// error.
pub fn deserialize(name: &str) -> (found: Result<HashAlgorithm, DecodeError>)
    ensures
        found == match algorithm_named(name@) {
            Some(algorithm) => Ok::<HashAlgorithm, DecodeError>(algorithm),
            None => Err(DecodeError::AlgorithmMismatch),
        },
{
    if same_text(name, "SHA1") {
        Ok(HashAlgorithm::Sha1)
    } else if same_text(name, "SHA256") {
        Ok(HashAlgorithm::Sha256)
    } else if same_text(name, "SHA384") {
        Ok(HashAlgorithm::Sha384)
    } else if same_text(name, "SHA512") {
        Ok(HashAlgorithm::Sha512)
    } else if same_text(name, "SHA512_256") {
        Ok(HashAlgorithm::Sha512_256)
    } else {
        Err(DecodeError::AlgorithmMismatch)
    }
}

/// Whether `name` holds the bytes of the name of `algorithm`.
fn is_name_of(name: &[u8], algorithm: HashAlgorithm) -> (same: bool)
    ensures
        same == (name@ == name_bytes(algorithm)),
{
    let text = name_of(algorithm);
    proof {
        lemma_names();
        assert(is_ascii(text));
        is_ascii_spec_bytes(text);
        assert(text.spec_bytes() =~= name_bytes(algorithm));
    }
    bytes_eq(name, text.as_bytes())
}

/// The algorithm whose name has the bytes `name`.
fn algorithm_for(name: &[u8]) -> (found: Option<HashAlgorithm>)
    ensures
        found == algorithm_with_name_bytes(name@),
{
    if is_name_of(name, HashAlgorithm::Sha1) {
        Some(HashAlgorithm::Sha1)
    } else if is_name_of(name, HashAlgorithm::Sha256) {
        Some(HashAlgorithm::Sha256)
    } else if is_name_of(name, HashAlgorithm::Sha384) {
        Some(HashAlgorithm::Sha384)
    } else if is_name_of(name, HashAlgorithm::Sha512) {
        Some(HashAlgorithm::Sha512)
    } else if is_name_of(name, HashAlgorithm::Sha512_256) {
        Some(HashAlgorithm::Sha512_256)
    } else {
        None
    }
}

/// A field of the envelope: the length of `bytes` as eight bytes, the lowest
/// first, and then the bytes.
pub open spec fn encode_field(bytes: Seq<u8>) -> Seq<u8> {
    spec_u64_to_le_bytes(bytes.len() as u64) + bytes
}

/// A sibling in the envelope: the tag 0 where there is none, else the tag 1
/// for the left or 2 for the right side and the hash as a field.
pub open spec fn encode_side(side: Option<Side<Seq<u8>>>) -> Seq<u8> {
    match side {
        None => seq![0u8],
        Some(Side::Left(hash)) => seq![1u8] + encode_field(hash),
        Some(Side::Right(hash)) => seq![2u8] + encode_field(hash),
    }
}

/// A chain in the envelope: the hash of the step as a field, the sibling, and
/// the tag 0 where the chain ends or the tag 1 and the chain below.
pub open spec fn encode_chain(chain: ChainView) -> Seq<u8>
    decreases chain,
{
    encode_field(chain.node_hash) + encode_side(chain.sibling_hash) + match chain.sub_conjecture {
        None => seq![0u8],
        Some(below) => seq![1u8] + encode_chain(*below),
    }
}

/// The envelope of a proof: the name of the algorithm, the root hash and the
/// block as fields, and the chain.
pub open spec fn encode_proof(given: ProofView) -> Seq<u8> {
    encode_field(name_bytes(given.algorithm)) + encode_field(given.root_hash) + encode_field(
        given.value,
    ) + encode_chain(given.conjecture)
}

/// The field at the start of `input` and what follows it.
pub open spec fn decode_field(input: Seq<u8>) -> Option<(Seq<u8>, Seq<u8>)> {
    if input.len() < 8 {
        None
    } else {
        let len = spec_u64_from_le_bytes(input.subrange(0, 8)) as int;
        if input.len() - 8 < len {
            None
        } else {
            Some((input.subrange(8, 8 + len), input.subrange(8 + len, input.len() as int)))
        }
    }
}

/// The sibling at the start of `input` and what follows it.
pub open spec fn decode_side(input: Seq<u8>) -> Option<(Option<Side<Seq<u8>>>, Seq<u8>)> {
    if input.len() < 1 {
        None
    } else if input[0] == 0 {
        Some((None, input.subrange(1, input.len() as int)))
    } else if input[0] == 1 {
        match decode_field(input.subrange(1, input.len() as int)) {
            Some((hash, rest)) => Some((Some(Side::Left(hash)), rest)),
            None => None,
        }
    } else if input[0] == 2 {
        match decode_field(input.subrange(1, input.len() as int)) {
            Some((hash, rest)) => Some((Some(Side::Right(hash)), rest)),
            None => None,
        }
    } else {
        None
    }
}

/// The chain at the start of `input` and what follows it.
pub open spec fn decode_chain(input: Seq<u8>) -> Option<(ChainView, Seq<u8>)>
    decreases input.len(),
{
    match decode_field(input) {
        None => None,
        Some((node_hash, after_hash)) => match decode_side(after_hash) {
            None => None,
            Some((sibling_hash, after_side)) => if after_side.len() < 1 {
                None
            } else if after_side[0] == 0 {
                Some(
                    (
                        ChainView { node_hash, sibling_hash, sub_conjecture: None },
                        after_side.subrange(1, after_side.len() as int),
                    ),
                )
            } else if after_side[0] == 1 {
                match decode_chain(after_side.subrange(1, after_side.len() as int)) {
                    Some((below, rest)) => Some(
                        (
                            ChainView {
                                node_hash,
                                sibling_hash,
                                sub_conjecture: Some(Box::new(below)),
                            },
                            rest,
                        ),
                    ),
                    None => None,
                }
            } else {
                None
            },
        },
    }
}

/// The proof that `input` is the envelope of, or why it is none.
pub open spec fn decode_proof(input: Seq<u8>) -> Result<ProofView, DecodeError> {
    match decode_field(input) {
        None => Err(DecodeError::Malformed),
        Some((name, after_name)) => match algorithm_with_name_bytes(name) {
            None => Err(DecodeError::AlgorithmMismatch),
            Some(algorithm) => match decode_field(after_name) {
                None => Err(DecodeError::Malformed),
                Some((root_hash, after_root)) => match decode_field(after_root) {
                    None => Err(DecodeError::Malformed),
                    Some((value, after_value)) => match decode_chain(after_value) {
                        None => Err(DecodeError::Malformed),
                        Some((conjecture, rest)) => if rest.len() == 0 {
                            Ok(ProofView { algorithm, root_hash, conjecture, value })
                        } else {
                            Err(DecodeError::Malformed)
                        },
                    },
                },
            },
        },
    }
}

/// Whether the length of `bytes` can be written in a field.
pub open spec fn fits_field(bytes: Seq<u8>) -> bool {
    bytes.len() <= u64::MAX
}

/// Whether every hash of the chain fits a field.
pub open spec fn chain_fits(chain: ChainView) -> bool
    decreases chain,
{
    &&& fits_field(chain.node_hash)
    &&& match chain.sibling_hash {
        Some(Side::Left(hash)) => fits_field(hash),
        Some(Side::Right(hash)) => fits_field(hash),
        None => true,
    }
    &&& match chain.sub_conjecture {
        Some(below) => chain_fits(*below),
        None => true,
    }
}

/// Whether every part of the proof fits a field, as those of every `Proof`
/// do.
pub open spec fn proof_fits(given: ProofView) -> bool {
    &&& fits_field(given.root_hash)
    &&& fits_field(given.value)
    &&& chain_fits(given.conjecture)
}

/// A field that is written is read back, with what followed it.
pub proof fn lemma_field_round_trip(bytes: Seq<u8>, rest: Seq<u8>)
    requires
        fits_field(bytes),
    ensures
        decode_field(encode_field(bytes) + rest) == Some((bytes, rest)),
{
    lemma_auto_spec_u64_to_from_le_bytes();
    let input = encode_field(bytes) + rest;
    let len = bytes.len() as u64;
    assert(input.subrange(0, 8) =~= spec_u64_to_le_bytes(len));
    assert(input.subrange(8, 8 + len) =~= bytes);
    assert(input.subrange(8 + len, input.len() as int) =~= rest);
}

/// A sibling that is written is read back, with what followed it.
pub proof fn lemma_side_round_trip(side: Option<Side<Seq<u8>>>, rest: Seq<u8>)
    requires
        match side {
            Some(Side::Left(hash)) => fits_field(hash),
            Some(Side::Right(hash)) => fits_field(hash),
            None => true,
        },
    ensures
        decode_side(encode_side(side) + rest) == Some((side, rest)),
{
    let input = encode_side(side) + rest;
    match side {
        None => {
            assert(input.subrange(1, input.len() as int) =~= rest);
        },
        Some(Side::Left(hash)) => {
            assert(input.subrange(1, input.len() as int) =~= encode_field(hash) + rest);
            lemma_field_round_trip(hash, rest);
        },
        Some(Side::Right(hash)) => {
            assert(input.subrange(1, input.len() as int) =~= encode_field(hash) + rest);
            lemma_field_round_trip(hash, rest);
        },
    }
}

/// A chain that is written is read back, with what followed it.
pub proof fn lemma_chain_round_trip(chain: ChainView, rest: Seq<u8>)
    requires
        chain_fits(chain),
    ensures
        decode_chain(encode_chain(chain) + rest) == Some((chain, rest)),
    decreases chain,
{
    let tail = match chain.sub_conjecture {
        None => seq![0u8],
        Some(below) => seq![1u8] + encode_chain(*below),
    };
    let input = encode_chain(chain) + rest;
    let after_hash = encode_side(chain.sibling_hash) + (tail + rest);
    let after_side = tail + rest;
    assert(input =~= encode_field(chain.node_hash) + after_hash);
    lemma_field_round_trip(chain.node_hash, after_hash);
    lemma_side_round_trip(chain.sibling_hash, after_side);
    match chain.sub_conjecture {
        None => {
            assert(after_side.subrange(1, after_side.len() as int) =~= rest);
        },
        Some(below) => {
            assert(after_side.subrange(1, after_side.len() as int) =~= encode_chain(*below)
                + rest);
            lemma_chain_round_trip(*below, rest);
        },
    }
}

/// Decoding the envelope of a proof gives the proof back.
pub proof fn lemma_proof_round_trip(given: ProofView)
    requires
        proof_fits(given),
    ensures
        decode_proof(encode_proof(given)) == Ok::<ProofView, DecodeError>(given),
{
    lemma_names();
    lemma_name_round_trip(given.algorithm);
    let name = name_bytes(given.algorithm);
    let chain = encode_chain(given.conjecture);
    let after_value = chain + Seq::<u8>::empty();
    let after_root = encode_field(given.value) + after_value;
    let after_name = encode_field(given.root_hash) + after_root;
    assert(encode_proof(given) =~= encode_field(name) + after_name);
    lemma_field_round_trip(name, after_name);
    lemma_field_round_trip(given.root_hash, after_root);
    lemma_field_round_trip(given.value, after_value);
    lemma_chain_round_trip(given.conjecture, Seq::<u8>::empty());
}

/// The view of a decoded proof or of the error.
pub open spec fn decoded_view(decoded: Result<Proof, DecodeError>) -> Result<
    ProofView,
    DecodeError,
> {
    match decoded {
        Ok(given) => Ok(given@),
        Err(error) => Err(error),
    }
}

/// Appends `bytes` as a field.
fn write_field(out: &mut Vec<u8>, bytes: &[u8])
    ensures
        final(out)@ == old(out)@ + encode_field(bytes@),
{
    let ghost before = out@;
    let mut len = u64_to_le_bytes(bytes.len() as u64);
    out.append(&mut len);
    let mut i: usize = 0;
    while i < bytes.len()
        invariant
            i <= bytes@.len(),
            out@ == before + spec_u64_to_le_bytes(bytes@.len() as u64) + bytes@.subrange(
                0,
                i as int,
            ),
        decreases bytes@.len() - i,
    {
        out.push(bytes[i]);
        assert(bytes@.subrange(0, i + 1) == bytes@.subrange(0, i as int).push(bytes@[i as int]));
        i += 1;
    }
    assert(bytes@ == bytes@.subrange(0, i as int));
}

/// Appends a sibling.
fn write_side(out: &mut Vec<u8>, side: &Option<Side<Vec<u8>>>)
    ensures
        final(out)@ == old(out)@ + encode_side(
            match *side {
                Some(side) => Some(side_view(side)),
                None => None,
            },
        ),
{
    match side {
        None => {
            out.push(0);
        },
        Some(Side::Left(hash)) => {
            out.push(1);
            write_field(out, hash.as_slice());
        },
        Some(Side::Right(hash)) => {
            out.push(2);
            write_field(out, hash.as_slice());
        },
    }
}

/// Appends a chain.
fn write_chain(out: &mut Vec<u8>, chain: &Conjecture)
    ensures
        final(out)@ == old(out)@ + encode_chain(chain@),
    decreases chain,
{
    write_field(out, chain.node_hash.as_slice());
    write_side(out, &chain.sibling_hash);
    match &chain.sub_conjecture {
        None => {
            out.push(0);
        },
        Some(below) => {
            out.push(1);
            write_chain(out, below);
        },
    }
}

/// The envelope of `given`.
pub fn encode(given: &Proof) -> (out: Vec<u8>)
    ensures
        out@ == encode_proof(given@),
        decode_proof(out@) == Ok::<ProofView, DecodeError>(given@),
{
    let mut out: Vec<u8> = Vec::new();
    let name = name_of(given.algorithm);
    proof {
        lemma_names();
        assert(is_ascii(name));
        is_ascii_spec_bytes(name);
        assert(name.spec_bytes() =~= name_bytes(given.algorithm));
    }
    write_field(&mut out, name.as_bytes());
    write_field(&mut out, given.root_hash.as_slice());
    write_field(&mut out, given.value.as_slice());
    write_chain(&mut out, &given.conjecture);
    proof {
        lemma_fits(given);
        lemma_proof_round_trip(given@);
    }
    out
}

/// Every hash of a chain in memory fits a field.
proof fn lemma_chain_in_memory_fits(chain: &Conjecture)
    ensures
        chain_fits(chain@),
    decreases chain,
{
    assert(chain.node_hash@.len() == chain.node_hash.len());
    match chain.sibling_hash {
        Some(Side::Left(hash)) => assert(hash@.len() == hash.len()),
        Some(Side::Right(hash)) => assert(hash@.len() == hash.len()),
        None => {},
    }
    match chain.sub_conjecture {
        Some(below) => lemma_chain_in_memory_fits(&*below),
        None => {},
    }
}

/// Every part of a proof in memory fits a field.
proof fn lemma_fits(given: &Proof)
    ensures
        proof_fits(given@),
{
    assert(given.root_hash@.len() == given.root_hash.len());
    assert(given.value@.len() == given.value.len());
    lemma_chain_in_memory_fits(&given.conjecture);
}

/// Reads the field that starts at `at`.
fn read_field(input: &[u8], at: usize) -> (out: Option<(Vec<u8>, usize)>)
    requires
        at <= input@.len(),
    ensures
        match decode_field(input@.subrange(at as int, input@.len() as int)) {
            Some((field, rest)) => out matches Some((bytes, next)) && {
                &&& bytes@ == field
                &&& at + 8 <= next <= input@.len()
                &&& rest == input@.subrange(next as int, input@.len() as int)
            },
            None => out is None,
        },
{
    let ghost tail = input@.subrange(at as int, input@.len() as int);
    if input.len() - at < 8 {
        return None;
    }
    let len = u64_from_le_bytes(slice_subrange(input, at, at + 8));
    assert(input@.subrange(at as int, at + 8) =~= tail.subrange(0, 8));
    if len > (input.len() - at - 8) as u64 {
        return None;
    }
    let start = at + 8;
    let next = start + len as usize;
    let bytes = copy_bytes(slice_subrange(input, start, next));
    assert(input@.subrange(start as int, next as int) =~= tail.subrange(8, 8 + len));
    assert(input@.subrange(next as int, input@.len() as int) =~= tail.subrange(
        8 + len,
        tail.len() as int,
    ));
    Some((bytes, next))
}

/// Reads the sibling that starts at `at`.
fn read_side(input: &[u8], at: usize) -> (out: Option<(Option<Side<Vec<u8>>>, usize)>)
    requires
        at <= input@.len(),
    ensures
        match decode_side(input@.subrange(at as int, input@.len() as int)) {
            Some((side, rest)) => out matches Some((found, next)) && {
                &&& side == match found {
                    Some(found) => Some(side_view(found)),
                    None => None,
                }
                &&& at + 1 <= next <= input@.len()
                &&& rest == input@.subrange(next as int, input@.len() as int)
            },
            None => out is None,
        },
{
    let ghost tail = input@.subrange(at as int, input@.len() as int);
    if input.len() - at < 1 {
        return None;
    }
    let tag = input[at];
    assert(tag == tail[0]);
    assert(tail.subrange(1, tail.len() as int) =~= input@.subrange(at + 1, input@.len() as int));
    if tag == 0 {
        Some((None, at + 1))
    } else if tag == 1 {
        match read_field(input, at + 1) {
            Some((hash, next)) => Some((Some(Side::Left(hash)), next)),
            None => None,
        }
    } else if tag == 2 {
        match read_field(input, at + 1) {
            Some((hash, next)) => Some((Some(Side::Right(hash)), next)),
            None => None,
        }
    } else {
        None
    }
}

/// Reads the chain that starts at `at`.
fn read_chain(input: &[u8], at: usize) -> (out: Option<(Conjecture, usize)>)
    requires
        at <= input@.len(),
    ensures
        match decode_chain(input@.subrange(at as int, input@.len() as int)) {
            Some((chain, rest)) => out matches Some((found, next)) && {
                &&& found@ == chain
                &&& at <= next <= input@.len()
                &&& rest == input@.subrange(next as int, input@.len() as int)
            },
            None => out is None,
        },
    decreases input@.len() - at,
{
    let (node_hash, after_hash) = match read_field(input, at) {
        Some(found) => found,
        None => {
            return None;
        },
    };
    let (sibling_hash, after_side) = match read_side(input, after_hash) {
        Some(found) => found,
        None => {
            return None;
        },
    };
    let ghost tail = input@.subrange(after_side as int, input@.len() as int);
    if input.len() - after_side < 1 {
        return None;
    }
    let tag = input[after_side];
    assert(tag == tail[0]);
    assert(tail.subrange(1, tail.len() as int) =~= input@.subrange(
        after_side + 1,
        input@.len() as int,
    ));
    if tag == 0 {
        Some((Conjecture { node_hash, sibling_hash, sub_conjecture: None }, after_side + 1))
    } else if tag == 1 {
        match read_chain(input, after_side + 1) {
            Some((below, next)) => Some(
                (
                    Conjecture { node_hash, sibling_hash, sub_conjecture: Some(Box::new(below)) },
                    next,
                ),
            ),
            None => None,
        }
    } else {
        None
    }
}

/// Reads a proof from its envelope. The envelope is refused as malformed
/// where it ends too early, holds a tag that does not exist or goes on after
/// the proof, and as naming an unknown algorithm where its first field is not
/// the name of one.
pub fn decode(input: &[u8]) -> (out: Result<Proof, DecodeError>)
    ensures
        decoded_view(out) == decode_proof(input@),
{
    assert(input@.subrange(0, input@.len() as int) =~= input@);
    let (name, after_name) = match read_field(input, 0) {
        Some(found) => found,
        None => {
            return Err(DecodeError::Malformed);
        },
    };
    let algorithm = match algorithm_for(name.as_slice()) {
        Some(found) => found,
        None => {
            return Err(DecodeError::AlgorithmMismatch);
        },
    };
    let (root_hash, after_root) = match read_field(input, after_name) {
        Some(found) => found,
        None => {
            return Err(DecodeError::Malformed);
        },
    };
    let (value, after_value) = match read_field(input, after_root) {
        Some(found) => found,
        None => {
            return Err(DecodeError::Malformed);
        },
    };
    let (conjecture, end) = match read_chain(input, after_value) {
        Some(found) => found,
        None => {
            return Err(DecodeError::Malformed);
        },
    };
    if end != input.len() {
        return Err(DecodeError::Malformed);
    }
    Ok(Proof { algorithm, root_hash, conjecture, value })
}

/// The hexadecimal digit, in lower case, for a value below sixteen.
pub open spec fn hex_digit(value: u8) -> u8 {
    if value < 10 {
        (48 + value) as u8
    } else {
        (87 + value) as u8
    }
}

/// The value of a hexadecimal digit, in either case.
pub open spec fn hex_value(digit: u8) -> Option<u8> {
    if 48 <= digit <= 57 {
        Some((digit - 48) as u8)
    } else if 97 <= digit <= 102 {
        Some((digit - 87) as u8)
    } else if 65 <= digit <= 70 {
        Some((digit - 55) as u8)
    } else {
        None
    }
}

/// The bytes written as text: two hexadecimal digits for each byte, the
/// higher half first.
pub open spec fn to_hex(bytes: Seq<u8>) -> Seq<u8> {
    Seq::new(
        2 * bytes.len(),
        |i: int|
            if i % 2 == 0 {
                hex_digit(bytes[i / 2] / 16)
            } else {
                hex_digit(bytes[i / 2] % 16)
            },
    )
}

/// Whether `text` is an even number of hexadecimal digits.
pub open spec fn is_hex(text: Seq<u8>) -> bool {
    &&& text.len() % 2 == 0
    &&& forall|i: int| 0 <= i < text.len() ==> (#[trigger] hex_value(text[i])) is Some
}

/// The bytes that `text` writes, if it is hexadecimal text.
pub open spec fn from_hex(text: Seq<u8>) -> Option<Seq<u8>> {
    if is_hex(text) {
        Some(
            Seq::new(
                text.len() / 2,
                |i: int|
                    (16 * hex_value(text[2 * i]).unwrap() + hex_value(text[2 * i + 1]).unwrap())
                        as u8,
            ),
        )
    } else {
        None
    }
}

/// A proof as text: its envelope in hexadecimal digits.
pub open spec fn encode_proof_text(given: ProofView) -> Seq<u8> {
    to_hex(encode_proof(given))
}

/// The proof that `text` writes, or why it writes none.
pub open spec fn decode_proof_text(text: Seq<u8>) -> Result<ProofView, DecodeError> {
    match from_hex(text) {
        Some(bytes) => decode_proof(bytes),
        None => Err(DecodeError::Malformed),
    }
}

/// Bytes written as text are read back.
pub proof fn lemma_hex_round_trip(bytes: Seq<u8>)
    ensures
        from_hex(to_hex(bytes)) == Some(bytes),
{
    let text = to_hex(bytes);
    assert forall|i: int| 0 <= i < text.len() implies (#[trigger] hex_value(text[i])) is Some by {
        let byte = bytes[i / 2];
        assert(byte / 16 < 16 && byte % 16 < 16);
    }
    assert(is_hex(text));
    assert forall|i: int| 0 <= i < bytes.len() implies (16 * hex_value(text[2 * i]).unwrap()
        + hex_value(text[2 * i + 1]).unwrap()) as u8 == bytes[i] by {
        let byte = bytes[i];
        assert(text[2 * i] == hex_digit(byte / 16));
        assert(text[2 * i + 1] == hex_digit(byte % 16));
        assert(byte / 16 < 16 && byte % 16 < 16);
        assert(16 * (byte / 16) + byte % 16 == byte);
    }
    assert(from_hex(text).unwrap() =~= bytes);
}

/// Decoding the text of a proof gives the proof back.
pub proof fn lemma_text_round_trip(given: ProofView)
    requires
        proof_fits(given),
    ensures
        decode_proof_text(encode_proof_text(given)) == Ok::<ProofView, DecodeError>(given),
{
    lemma_hex_round_trip(encode_proof(given));
    lemma_proof_round_trip(given);
}

/// The hexadecimal digit for a value below sixteen.
fn digit_for(value: u8) -> (digit: u8)
    requires
        value < 16,
    ensures
        digit == hex_digit(value),
{
    if value < 10 {
        48 + value
    } else {
        87 + value
    }
}

/// The value of a hexadecimal digit.
fn value_of(digit: u8) -> (value: Option<u8>)
    ensures
        value == hex_value(digit),
{
    if 48 <= digit && digit <= 57 {
        Some(digit - 48)
    } else if 97 <= digit && digit <= 102 {
        Some(digit - 87)
    } else if 65 <= digit && digit <= 70 {
        Some(digit - 55)
    } else {
        None
    }
}

/// Writes `bytes` as hexadecimal text.
pub fn hex_encode(bytes: &[u8]) -> (text: Vec<u8>)
    ensures
        text@ == to_hex(bytes@),
{
    let mut text: Vec<u8> = Vec::new();
    let mut i: usize = 0;
    while i < bytes.len()
        invariant
            i <= bytes@.len(),
            text@.len() == 2 * i,
            forall|k: int| 0 <= k < text@.len() ==> text@[k] == to_hex(bytes@)[k],
        decreases bytes@.len() - i,
    {
        let byte = bytes[i];
        text.push(digit_for(byte / 16));
        text.push(digit_for(byte % 16));
        i += 1;
    }
    assert(text@ =~= to_hex(bytes@));
    text
}

/// Reads the bytes that hexadecimal text writes. Text of odd length or with
/// another character in it writes none.
pub fn hex_decode(text: &[u8]) -> (bytes: Option<Vec<u8>>)
    ensures
        match from_hex(text@) {
            Some(written) => bytes matches Some(found) && found@ == written,
            None => bytes is None,
        },
{
    if text.len() % 2 != 0 {
        return None;
    }
    let mut bytes: Vec<u8> = Vec::new();
    let mut i: usize = 0;
    while i < text.len()
        invariant
            text@.len() % 2 == 0,
            i % 2 == 0,
            i <= text@.len(),
            bytes@.len() == i / 2,
            forall|k: int| 0 <= k < i ==> (#[trigger] hex_value(text@[k])) is Some,
            forall|k: int|
                0 <= k < bytes@.len() ==> bytes@[k] == (16 * hex_value(text@[2 * k]).unwrap()
                    + hex_value(text@[2 * k + 1]).unwrap()) as u8,
        decreases text@.len() - i,
    {
        let high = match value_of(text[i]) {
            Some(value) => value,
            None => {
                return None;
            },
        };
        let low = match value_of(text[i + 1]) {
            Some(value) => value,
            None => {
                return None;
            },
        };
        bytes.push(16 * high + low);
        i += 2;
    }
    assert(is_hex(text@));
    assert(bytes@ =~= from_hex(text@).unwrap());
    Some(bytes)
}

/// Writes a proof as text: its envelope in hexadecimal digits.
pub fn encode_text(given: &Proof) -> (text: Vec<u8>)
    ensures
        text@ == encode_proof_text(given@),
        decode_proof_text(text@) == Ok::<ProofView, DecodeError>(given@),
{
    let envelope = encode(given);
    proof {
        lemma_hex_round_trip(envelope@);
    }
    hex_encode(envelope.as_slice())
}

/// Reads a proof from text. Text that is not hexadecimal is refused as
/// malformed; other text is refused as its bytes are.
pub fn decode_text(text: &[u8]) -> (out: Result<Proof, DecodeError>)
    ensures
        decoded_view(out) == decode_proof_text(text@),
{
    match hex_decode(text) {
        Some(envelope) => decode(envelope.as_slice()),
        None => Err(DecodeError::Malformed),
    }
}

} // verus!
