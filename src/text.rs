//! Facts about UTF-8 encoded text that the tokenizer needs to cut a source
//! string at the edges of its tokens.
use vstd::prelude::*;
use vstd::utf8::*;
use vstd::string::StringSliceAdditionalSpecFns;

verus! {

/// In well-formed UTF-8, a position whose byte does not continue a
/// multi-byte character (or the end of the text) starts a character.
pub proof fn lemma_boundary_at_start_byte(b: Seq<u8>, i: int)
    requires
        valid_utf8(b),
        0 <= i <= b.len(),
        i == b.len() || !is_continuation_byte(b[i]),
    ensures
        is_char_boundary(b, i),
    decreases b.len(),
{
    if i == 0 {
    } else if i == b.len() {
        is_char_boundary_start_end_of_seq(b);
    } else {
        let k = length_of_first_scalar(b);
        let t = pop_first_scalar(b);
        assert(t.len() == b.len() - k);
        assert(k <= i);
        assert(t[i - k] == b[i]);
        lemma_boundary_at_start_byte(t, i - k);
    }
}

/// In well-formed UTF-8, the byte after an ASCII byte never continues a
/// multi-byte character.
pub proof fn lemma_no_continuation_after_ascii(b: Seq<u8>, i: int)
    requires
        valid_utf8(b),
        0 < i < b.len(),
        b[i - 1] <= 0x7f,
    ensures
        !is_continuation_byte(b[i]),
    decreases b.len(),
{
    reveal_with_fuel(valid_utf8, 2);
    let k = length_of_first_scalar(b);
    let t = pop_first_scalar(b);
    assert(t.len() == b.len() - k);
    if i == 1 {
        assert(k == 1);
        assert(t[0] == b[1]);
        assert(valid_first_scalar(t));
    } else {
        assert(k < i);
        assert(t[i - k] == b[i]);
        assert(t[i - k - 1] == b[i - 1]);
        lemma_no_continuation_after_ascii(t, i - k);
    }
}

/// In well-formed UTF-8, the position right after an ASCII byte starts a
/// character (or is the end of the text).
pub proof fn lemma_boundary_after_ascii(b: Seq<u8>, i: int)
    requires
        valid_utf8(b),
        0 < i <= b.len(),
        b[i - 1] <= 0x7f,
    ensures
        is_char_boundary(b, i),
        i < b.len() ==> !is_continuation_byte(b[i]),
{
    if i < b.len() {
        lemma_no_continuation_after_ascii(b, i);
    }
    lemma_boundary_at_start_byte(b, i);
}

/// Position `i` is the end of `b` or holds a byte that does not continue a
/// multi-byte character.
pub open spec fn starts_char(b: Seq<u8>, i: int) -> bool {
    0 <= i <= b.len() && (i == b.len() || !is_continuation_byte(b[i]))
}

/// The characters of `s` between the byte positions `lo` and `hi`.
pub fn slice_text(s: &str, lo: usize, hi: usize) -> (r: String)
    requires
        lo <= hi,
        starts_char(s.spec_bytes(), lo as int),
        starts_char(s.spec_bytes(), hi as int),
    ensures
        r@ == decode_utf8(s.spec_bytes().subrange(lo as int, hi as int)),
{
    let ghost b = s.spec_bytes();
    proof {
        encode_utf8_valid_utf8(s@);
        lemma_boundary_at_start_byte(b, lo as int);
    }
    let (_, tail) = s.split_at(lo);
    proof {
        let tb = tail.spec_bytes();
        encode_utf8_valid_utf8(tail@);
        assert(tb =~= b.subrange(lo as int, b.len() as int));
        if hi < b.len() {
            assert(tb[hi - lo] == b[hi as int]);
        }
        lemma_boundary_at_start_byte(tb, hi - lo);
    }
    let (mid, _) = tail.split_at(hi - lo);
    proof {
        encode_utf8_decode_utf8(mid@);
        assert(mid.spec_bytes() =~= b.subrange(lo as int, hi as int));
    }
    mid.to_owned()
}

/// The character that starts at byte position `p` of `s`, and its length
/// in bytes.
pub fn char_at(s: &str, p: usize) -> (r: (char, usize))
    requires
        p < s.spec_bytes().len(),
        starts_char(s.spec_bytes(), p as int),
    ensures
        r.0 == decode_utf8(s.spec_bytes().subrange(p as int, s.spec_bytes().len() as int))[0],
        r.1 == length_of_first_scalar(
            s.spec_bytes().subrange(p as int, s.spec_bytes().len() as int),
        ),
        1 <= r.1 <= s.spec_bytes().len() - p,
{
    broadcast use vstd::string::axiom_spec_iter, vstd::string::next_postcondition;

    let ghost b = s.spec_bytes();
    proof {
        encode_utf8_valid_utf8(s@);
        lemma_boundary_at_start_byte(b, p as int);
    }
    let (_, tail) = s.split_at(p);
    let ghost tb = tail.spec_bytes();
    proof {
        encode_utf8_valid_utf8(tail@);
        encode_utf8_decode_utf8(tail@);
        assert(tb =~= b.subrange(p as int, b.len() as int));
        assert(valid_first_scalar(tb));
        assert(tail@.len() > 0);
    }
    let mut it = tail.chars();
    let c = it.next().unwrap();
    let lead = tail.as_bytes()[0];
    let w: usize = if lead < 0x80 {
        1
    } else if lead < 0xe0 {
        2
    } else if lead < 0xf0 {
        3
    } else {
        4
    };
    (c, w)
}

} // verus!
