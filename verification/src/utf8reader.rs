use vstd::prelude::*;
use vstd::utf8::*;

verus! {

/// The bytes of `data` from `position` to the end.
pub open spec fn bytes_from(data: Seq<u8>, position: int) -> Seq<u8> {
    data.subrange(position, data.len() as int)
}

proof fn lemma_suffix_first_scalar(data: Seq<u8>, position: int)
    requires
        valid_utf8(data),
        0 <= position < data.len(),
        is_char_boundary(data, position),
    ensures
        valid_utf8(bytes_from(data, position)),
        valid_first_scalar(bytes_from(data, position)),
        position + length_of_first_scalar(bytes_from(data, position)) <= data.len(),
{
    valid_utf8_split(data, position);
    let s = bytes_from(data, position);
    assert(s.len() != 0);
}

/// Reads the character that starts at byte `position` of the UTF-8 stream
/// `data`, and returns its code point and the length of its encoding in
/// bytes.
pub fn read_char(data: &[u8], position: usize) -> (r: (u32, usize))
    requires
        valid_utf8(data@),
        position < data@.len(),
        is_char_boundary(data@, position as int),
    ensures
        r.0 == decode_first_scalar(bytes_from(data@, position as int)),
        r.1 == length_of_first_scalar(bytes_from(data@, position as int)),
        1 <= r.1 <= 4,
        position + r.1 <= data@.len(),
{
    proof {
        lemma_suffix_first_scalar(data@, position as int);
    }
    let ghost s = bytes_from(data@, position as int);
    let b0 = data[position];
    assert(s[0] == b0);
    if b0 <= 0x7f {
        (((b0 & 0x7f) as u32), 1)
    } else if b0 <= 0xdf {
        let b1 = data[position + 1];
        assert(s[1] == b1);
        ((((b0 & 0x1f) as u32) << 6) | ((b1 & 0x3f) as u32), 2)
    } else if b0 <= 0xef {
        let b1 = data[position + 1];
        let b2 = data[position + 2];
        assert(s[1] == b1 && s[2] == b2);
        ((((b0 & 0x0f) as u32) << 12) | (((b1 & 0x3f) as u32) << 6) | ((b2 & 0x3f) as u32), 3)
    } else {
        let b1 = data[position + 1];
        let b2 = data[position + 2];
        let b3 = data[position + 3];
        assert(s[1] == b1 && s[2] == b2 && s[3] == b3);
        (
            (((b0 & 0x07) as u32) << 18) | (((b1 & 0x3f) as u32) << 12) | (((b2 & 0x3f) as u32)
                << 6) | ((b3 & 0x3f) as u32),
            4,
        )
    }
}

/// Reads the character that holds the byte before byte `position` of the
/// UTF-8 stream `data`, and returns its code point and the length of its
/// encoding in bytes.
pub fn read_previous_char(data: &[u8], position: usize) -> (r: (u32, usize))
    requires
        valid_utf8(data@),
        0 < position <= data@.len(),
    ensures
        exists|start: int|
            #![trigger bytes_from(data@, start)]
            0 <= start < position && is_char_boundary(data@, start) && start + r.1 >= position
                && r.0 == decode_first_scalar(bytes_from(data@, start)) && r.1
                == length_of_first_scalar(bytes_from(data@, start)),
        1 <= r.1 <= 4,
{
    broadcast use is_char_boundary_iff_not_is_continuation_byte;

    let mut start = position - 1;
    while is_continuation(data[start])
        invariant
            valid_utf8(data@),
            0 < position <= data@.len(),
            start < position,
            forall|k: int| start < k < position ==> is_continuation_byte(#[trigger] data@[k]),
        decreases start,
    {
        proof {
            if start == 0 {
                // the first byte of a valid stream is a character boundary
                is_char_boundary_start_end_of_seq(data@);
            }
        }
        start = start - 1;
    }
    proof {
        lemma_suffix_first_scalar(data@, start as int);
        let s = bytes_from(data@, start as int);
        let len = length_of_first_scalar(s);
        valid_utf8_split(data@, start as int);
        // the byte after the character read starts the next character, so
        // it cannot be one of the continuation bytes before `position`
        if start + len < position {
            is_char_boundary_start_end_of_seq(s);
            reveal_with_fuel(is_char_boundary, 2);
            assert(is_char_boundary(s, len));
            if len < s.len() {
                assert(s[len] == data@[start + len]);
            }
        }
    }
    read_char(data, start)
}

/// Reading backwards from the end of a character finds that character:
/// two characters of a valid UTF-8 stream that end at the same byte start
/// at the same byte, so `read_previous_char` at the end of the character
/// that `read_char` reads gives back that character and its length.
pub proof fn previous_char_is_the_char_read(data: Seq<u8>, p: int, s: int)
    requires
        valid_utf8(data),
        0 <= p < data.len(),
        0 <= s < data.len(),
        is_char_boundary(data, p),
        is_char_boundary(data, s),
        s + length_of_first_scalar(bytes_from(data, s)) == p + length_of_first_scalar(
            bytes_from(data, p),
        ),
    ensures
        s == p,
{
    broadcast use is_char_boundary_iff_not_is_continuation_byte;

    lemma_suffix_first_scalar(data, p);
    lemma_suffix_first_scalar(data, s);
    if s < p {
        let b = bytes_from(data, s);
        assert(b[p - s] == data[p]);
        assert(is_continuation_byte(b[p - s]));
    } else if p < s {
        let b = bytes_from(data, p);
        assert(b[s - p] == data[s]);
        assert(is_continuation_byte(b[s - p]));
    }
}

fn is_continuation(b: u8) -> (r: bool)
    ensures
        r == is_continuation_byte(b),
{
    0x80 <= b && b <= 0xbf
}

} // verus!
