//! Byte-level primitives shared by the archive writer and reader: the XOR
//! stream cipher and the path-separator conversion between the in-memory
//! forward-slash form and the backslash form stored on the wire.
use vstd::prelude::*;

verus! {

/// Forward slash, the separator of in-memory paths.
pub const SEP_HOST: u8 = 0x2f;

/// Backslash, the separator stored on the wire.
pub const SEP_WIRE: u8 = 0x5c;

/// The XOR stream: byte `i` of `data` combined with byte `i mod key.len()`
/// of `key`; `data` unchanged when the key is empty.
pub open spec fn xor_with_key(data: Seq<u8>, key: Seq<u8>) -> Seq<u8> {
    if key.len() == 0 {
        data
    } else {
        Seq::new(data.len(), |i: int| data[i] ^ key[i % key.len() as int])
    }
}

/// XOR encrypts or decrypts `data` in place with `key`; a no-op when the
/// key is empty. Applying it twice with one key restores the original.
pub fn xor_crypt(data: &mut Vec<u8>, key: &Vec<u8>)
    ensures
        final(data)@ == xor_with_key(old(data)@, key@),
{
    if key.len() == 0 {
        return ;
    }
    let mut i: usize = 0;
    while i < data.len()
        invariant
            key@.len() > 0,
            i <= data@.len(),
            data@.len() == old(data)@.len(),
            forall|j: int|
                0 <= j < i ==> data@[j] == (old(data)@[j] ^ key@[j % key@.len() as int]),
            forall|j: int| i <= j < data@.len() ==> data@[j] == old(data)@[j],
        decreases data@.len() - i,
    {
        let b = data[i] ^ key[i % key.len()];
        data.set(i, b);
        i += 1;
    }
    assert(data@ =~= xor_with_key(old(data)@, key@));
}

/// Applying the XOR stream twice with one key gives the original bytes back,
/// whatever the key.
pub proof fn lemma_xor_with_key_involutive(data: Seq<u8>, key: Seq<u8>)
    ensures
        xor_with_key(xor_with_key(data, key), key) == data,
{
    if key.len() > 0 {
        assert forall|i: int| 0 <= i < data.len() implies xor_with_key(
            xor_with_key(data, key),
            key,
        )[i] == data[i] by {
            let k = key[i % key.len() as int];
            let d = data[i];
            assert((d ^ k) ^ k == d) by (bit_vector);
        }
    }
    assert(xor_with_key(xor_with_key(data, key), key) =~= data);
}

/// The wire form of a path: every forward slash replaced by a backslash.
pub open spec fn wire_separated(p: Seq<u8>) -> Seq<u8> {
    Seq::new(p.len(), |i: int| if p[i] == SEP_HOST { SEP_WIRE } else { p[i] })
}

/// The in-memory form of a wire path: every backslash replaced by a
/// forward slash.
pub open spec fn host_separated(p: Seq<u8>) -> Seq<u8> {
    Seq::new(p.len(), |i: int| if p[i] == SEP_WIRE { SEP_HOST } else { p[i] })
}

/// Converts an in-memory path to its wire form.
pub fn to_wire_separators(p: &Vec<u8>) -> (r: Vec<u8>)
    ensures
        r@ == wire_separated(p@),
{
    let mut out: Vec<u8> = Vec::new();
    let mut i: usize = 0;
    while i < p.len()
        invariant
            i <= p@.len(),
            out@ == wire_separated(p@).subrange(0, i as int),
        decreases p@.len() - i,
    {
        let b = p[i];
        if b == SEP_HOST {
            out.push(SEP_WIRE);
        } else {
            out.push(b);
        }
        assert(out@ =~= wire_separated(p@).subrange(0, i + 1));
        i += 1;
    }
    assert(out@ =~= wire_separated(p@));
    out
}

/// Converts a wire path to its in-memory form.
pub fn to_host_separators(p: &Vec<u8>) -> (r: Vec<u8>)
    ensures
        r@ == host_separated(p@),
{
    let mut out: Vec<u8> = Vec::new();
    let mut i: usize = 0;
    while i < p.len()
        invariant
            i <= p@.len(),
            out@ == host_separated(p@).subrange(0, i as int),
        decreases p@.len() - i,
    {
        let b = p[i];
        if b == SEP_WIRE {
            out.push(SEP_HOST);
        } else {
            out.push(b);
        }
        assert(out@ =~= host_separated(p@).subrange(0, i + 1));
        i += 1;
    }
    assert(out@ =~= host_separated(p@));
    out
}

/// A path without backslashes comes back unchanged from a trip through the
/// wire form.
pub proof fn lemma_separator_round_trip(p: Seq<u8>)
    requires
        forall|i: int| 0 <= i < p.len() ==> p[i] != SEP_WIRE,
    ensures
        host_separated(wire_separated(p)) == p,
{
    assert(host_separated(wire_separated(p)) =~= p);
}

/// The separator of in-memory paths, as a character.
pub const SEP_HOST_CHAR: char = '/';

/// The separator of wire paths, as a character.
pub const SEP_WIRE_CHAR: char = '\\';

/// The wire form of a path given as characters: every `'/'` replaced by
/// `'\\'`.
pub open spec fn wire_separated_chars(p: Seq<char>) -> Seq<char> {
    Seq::new(p.len(), |i: int| if p[i] == SEP_HOST_CHAR { SEP_WIRE_CHAR } else { p[i] })
}

/// Returns the path with every forward slash replaced by a backslash, the
/// separator the wire format stores.
pub fn get_path_str(path: &str) -> (r: String)
    ensures
        r@ == wire_separated_chars(path@),
{
    let n = path.unicode_len();
    let mut out = String::new();
    let mut start: usize = 0;
    let mut i: usize = 0;
    while i < n
        invariant
            n == path@.len(),
            start <= i <= n,
            out@ == wire_separated_chars(path@.subrange(0, start as int)),
            forall|j: int| start <= j < i ==> path@[j] != SEP_HOST_CHAR,
        decreases n - i,
    {
        let c = path.get_char(i);
        if c == SEP_HOST_CHAR {
            out.append(path.substring_char(start, i));
            out.append("\\");
            proof {
                reveal_strlit("\\");
                assert(out@ =~= wire_separated_chars(path@.subrange(0, i + 1)));
            }
            start = i + 1;
        }
        i += 1;
    }
    out.append(path.substring_char(start, n));
    assert(out@ =~= wire_separated_chars(path@));
    out
}

} // verus!
