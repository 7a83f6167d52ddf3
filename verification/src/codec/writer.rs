//! Appending the primitive encodings to a byte vector.
use vstd::prelude::*;
use crate::codec::primitives::{
    blob_fits, ser_blob, ser_pair, ser_text, ser_u16, ser_u32, ser_u8, ser_varbyte, text_fits,
    MAX_VARBYTE,
};

verus! {

pub fn put_u8(out: &mut Vec<u8>, v: u8)
    ensures
        final(out)@ == old(out)@ + ser_u8(v),
{
    out.push(v);
    assert(out@ =~= old(out)@ + ser_u8(v));
}

pub fn put_u16(out: &mut Vec<u8>, v: u16)
    ensures
        final(out)@ == old(out)@ + ser_u16(v),
{
    out.push((v / 256) as u8);
    out.push((v % 256) as u8);
    assert(out@ =~= old(out)@ + ser_u16(v));
}

pub fn put_u32(out: &mut Vec<u8>, v: u32)
    ensures
        final(out)@ == old(out)@ + ser_u32(v),
{
    out.push((v / 16_777_216) as u8);
    out.push(((v / 65_536) % 256) as u8);
    out.push(((v / 256) % 256) as u8);
    out.push((v % 256) as u8);
    assert(out@ =~= old(out)@ + ser_u32(v));
}

/// Appends `v` as a variable byte integer, in as few bytes as it takes.
pub fn put_varbyte(out: &mut Vec<u8>, v: u32)
    requires
        v <= MAX_VARBYTE,
    ensures
        final(out)@ == old(out)@ + ser_varbyte(v as nat),
{
    let mut x: u32 = v;
    while x >= 128
        invariant
            out@ + ser_varbyte(x as nat) == old(out)@ + ser_varbyte(v as nat),
        decreases x,
    {
        let ghost before = out@;
        out.push((x % 128 + 128) as u8);
        assert(out@ + ser_varbyte((x / 128) as nat) =~= before + ser_varbyte(x as nat));
        x = x / 128;
    }
    let ghost before = out@;
    out.push(x as u8);
    assert(out@ =~= before + ser_varbyte(x as nat));
}

/// Appends the bytes of `data` as they are.
pub fn put_bytes(out: &mut Vec<u8>, data: &[u8])
    ensures
        final(out)@ == old(out)@ + data@,
{
    let mut i: usize = 0;
    while i < data.len()
        invariant
            i <= data@.len(),
            out@ == old(out)@ + data@.take(i as int),
        decreases data@.len() - i,
    {
        out.push(data[i]);
        i = i + 1;
        assert(out@ =~= old(out)@ + data@.take(i as int));
    }
    assert(data@.take(i as int) =~= data@);
}

/// Appends a binary value: its length in two bytes, and its bytes.
pub fn put_blob(out: &mut Vec<u8>, data: &[u8])
    requires
        blob_fits(data@),
    ensures
        final(out)@ == old(out)@ + ser_blob(data@),
{
    proof {
        reveal(ser_blob);
    }
    put_u16(out, data.len() as u16);
    put_bytes(out, data);
    assert(out@ =~= old(out)@ + ser_blob(data@));
}

/// Appends a string: the length of its UTF-8 form in two bytes, and that
/// form.
pub fn put_text(out: &mut Vec<u8>, text: &str)
    requires
        text_fits(text@),
    ensures
        final(out)@ == old(out)@ + ser_text(text@),
{
    proof {
        reveal(ser_text);
    }
    let bytes = text.as_bytes();
    put_u16(out, bytes.len() as u16);
    put_bytes(out, bytes);
    assert(out@ =~= old(out)@ + ser_text(text@));
}

/// Appends two strings, one after the other.
pub fn put_pair(out: &mut Vec<u8>, key: &str, value: &str)
    requires
        text_fits(key@),
        text_fits(value@),
    ensures
        final(out)@ == old(out)@ + ser_pair((key@, value@)),
{
    proof {
        reveal(ser_pair);
    }
    put_text(out, key);
    put_text(out, value);
    assert(out@ =~= old(out)@ + ser_pair((key@, value@)));
}

} // verus!
