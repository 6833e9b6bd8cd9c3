//! Byte buffers read as 64-bit words.

use vstd::bytes::spec_u64_from_le_bytes;
use vstd::endian::{endianness, Endian};
use vstd::prelude::*;
use vstd::slice::slice_subrange;

verus! {

/// The word that eight bytes form when they are read, in memory order, as one
/// unsigned 64-bit integer in the byte order of the machine.
pub open spec fn native_word(bytes: Seq<u8>) -> u64 {
    match endianness() {
        Endian::Little => spec_u64_from_le_bytes(bytes),
        Endian::Big => spec_u64_from_le_bytes(bytes.reverse()),
    }
}

/// The `i`-th word of a byte buffer: the word formed by bytes `8 * i` to `8 * i + 7`.
pub open spec fn word_at(bytes: Seq<u8>, i: int) -> u64 {
    native_word(bytes.subrange(8 * i, 8 * i + 8))
}

/// The words of a byte buffer, in order; trailing bytes that do not fill a word are
/// left out.
pub open spec fn words_of(bytes: Seq<u8>) -> Seq<u64> {
    Seq::new((bytes.len() / 8) as nat, |i: int| word_at(bytes, i))
}

/// Word by word, the XOR of newly observed bytes with the bytes they replace.
pub open spec fn xor_words(new: Seq<u8>, prior: Seq<u8>) -> Seq<u64> {
    Seq::new((new.len() / 8) as nat, |i: int| word_at(new, i) ^ word_at(prior, i))
}

/// `bytemuck::PodCastError`: why a cast between plain data forms was refused.
#[verifier::external_type_specification]
#[verifier::external_body]
pub struct ExPodCastError(bytemuck::PodCastError);

/// Calls `bytemuck::pod_read_unaligned::<u64>`, which copies the eight bytes of the
/// slice into a `u64` as they lie in memory, whatever the slice's alignment. A
/// slice of any other length makes the outside function panic and is ruled out.
#[verifier::external_body]
fn read_word(bytes: &[u8]) -> (w: u64)
    requires
        bytes@.len() == 8,
    ensures
        w == native_word(bytes@),
{
    bytemuck::pod_read_unaligned::<u64>(bytes)
}

/// Calls `bytemuck::try_cast_slice::<u8, u64>`, which hands back the same memory as
/// a slice of words if the bytes start on a word boundary and fill a whole number
/// of words, and refuses otherwise. Where the bytes start is not known here, so
/// success is claimed for no input.
#[verifier::external_body]
fn cast_words<'a>(bytes: &'a [u8]) -> (r: Result<&'a [u64], bytemuck::PodCastError>)
    ensures
        r matches Ok(words) ==> bytes@.len() % 8 == 0 && words@ == words_of(bytes@),
{
    bytemuck::try_cast_slice::<u8, u64>(bytes)
}

/// Reads the `i`-th word of `bytes`.
pub fn word_at_index(bytes: &[u8], i: usize) -> (w: u64)
    requires
        8 * (i + 1) <= bytes.len(),
    ensures
        w == word_at(bytes@, i as int),
{
    read_word(slice_subrange(bytes, 8 * i, 8 * i + 8))
}

/// Appends to `log` the XOR of a newly observed word with the word it replaces.
pub fn push_xor(log: &mut Vec<u64>, new_word: u64, prior_word: u64)
    ensures
        final(log)@ == old(log)@.push(new_word ^ prior_word),
{
    log.push(new_word ^ prior_word);
}

/// Appends to `log`, word by word, the XOR of newly observed words with the words
/// they replace.
pub fn append_xor(log: &mut Vec<u64>, new: &[u64], prior: &[u64])
    requires
        new@.len() == prior@.len(),
    ensures
        final(log)@ == old(log)@ + Seq::new(new@.len(), |i: int| new@[i] ^ prior@[i]),
{
    let count: usize = new.len();
    let mut i: usize = 0;
    while i < count
        invariant
            count == new@.len(),
            count == prior@.len(),
            i <= count,
            log@ == old(log)@ + Seq::new(i as nat, |k: int| new@[k] ^ prior@[k]),
        decreases count - i,
    {
        push_xor(log, new[i], prior[i]);
        proof {
            assert(log@ =~= old(log)@ + Seq::new((i + 1) as nat, |k: int| new@[k] ^ prior@[k]));
        }
        i = i + 1;
    }
}

/// Appends to `log` the XOR of the words of `new` with the words of `prior`. The
/// buffers are taken as word slices in place where they can be, and are decoded
/// word by word where they cannot.
pub fn append_xor_of_bytes(log: &mut Vec<u64>, new: &[u8], prior: &[u8])
    requires
        new@.len() % 8 == 0,
        prior@.len() == new@.len(),
    ensures
        final(log)@ == old(log)@ + xor_words(new@, prior@),
{
    match cast_words(new) {
        Ok(new_words) => match cast_words(prior) {
            Ok(prior_words) => {
                append_xor(log, new_words, prior_words);
                proof {
                    assert(Seq::new(new_words@.len(), |i: int| new_words@[i] ^ prior_words@[i])
                        =~= xor_words(new@, prior@));
                }
                return ;
            },
            Err(_) => {},
        },
        Err(_) => {},
    }
    let count: usize = new.len() / 8;
    let mut i: usize = 0;
    while i < count
        invariant
            new@.len() == 8 * count,
            prior@.len() == new@.len(),
            i <= count,
            log@ == old(log)@ + Seq::new(i as nat, |k: int| word_at(new@, k) ^ word_at(prior@, k)),
        decreases count - i,
    {
        let new_word: u64 = word_at_index(new, i);
        let prior_word: u64 = word_at_index(prior, i);
        push_xor(log, new_word, prior_word);
        proof {
            assert(log@ =~= old(log)@ + Seq::new(
                (i + 1) as nat,
                |k: int| word_at(new@, k) ^ word_at(prior@, k),
            ));
        }
        i = i + 1;
    }
    proof {
        assert(Seq::new(i as nat, |k: int| word_at(new@, k) ^ word_at(prior@, k)) =~= xor_words(
            new@,
            prior@,
        ));
    }
}

/// Perform XOR across two memories: returns, word by word, the XOR of the words
/// `p` with the words of `q` from the word that byte `p_base` of `q` falls in.
pub fn do_xor(p: &[u64], p_base: usize, q: &Vec<u8>) -> (r: Vec<u64>)
    requires
        8 * (p_base / 8 + p@.len()) <= q@.len(),
    ensures
        r@ == Seq::new(p@.len(), |i: int| p@[i] ^ word_at(q@, p_base / 8 + i)),
{
    let scaled_base: usize = p_base / 8;
    let count: usize = p.len();
    let size: usize = q.len();
    let mut changes: Vec<u64> = Vec::new();
    let mut i: usize = 0;
    while i < count
        invariant
            count == p@.len(),
            size == q@.len(),
            scaled_base == p_base / 8,
            8 * (scaled_base + count) <= size,
            i <= count,
            changes@ == Seq::new(i as nat, |k: int| p@[k] ^ word_at(q@, scaled_base + k)),
        decreases count - i,
    {
        let prior_word: u64 = word_at_index(q.as_slice(), scaled_base + i);
        push_xor(&mut changes, p[i], prior_word);
        proof {
            assert(changes@ =~= Seq::new(
                (i + 1) as nat,
                |k: int| p@[k] ^ word_at(q@, scaled_base + k),
            ));
        }
        i = i + 1;
    }
    changes
}

} // verus!
