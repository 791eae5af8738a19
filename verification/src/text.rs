use vstd::prelude::*;
use vstd::utf8::*;
use vstd::string::*;

verus! {

broadcast use {
    vstd::utf8::encode_utf8_valid_utf8,
    vstd::utf8::encode_utf8_decode_utf8,
    vstd::utf8::is_char_boundary_start_end_of_seq,
    vstd::string::axiom_spec_iter,
};

/// The characters of `bytes[lo..hi]`, when that byte range can be cut out of
/// a string: `lo <= hi` and both ends fall on character boundaries.
pub open spec fn byte_slice_chars(bytes: Seq<u8>, lo: int, hi: int) -> Option<Seq<char>> {
    if lo <= hi && is_char_boundary(bytes, lo) && is_char_boundary(bytes, hi) {
        Some(decode_utf8(bytes.subrange(lo, hi)))
    } else {
        None
    }
}

proof fn lemma_boundary_in_prefix(b: Seq<u8>, lo: int, hi: int)
    requires
        valid_utf8(b),
        lo <= hi,
        is_char_boundary(b, lo),
        is_char_boundary(b, hi),
    ensures
        valid_utf8(b.subrange(0, hi)),
        is_char_boundary(b.subrange(0, hi), lo),
{
    valid_utf8_split(b, hi);
    let p = b.subrange(0, hi);
    if lo == 0 {
    } else if lo == hi {
        is_char_boundary_start_end_of_seq(p);
    } else {
        if lo < 0 || b.len() < lo {
        } else {
            is_char_boundary_iff_not_is_continuation_byte(b, lo);
            is_char_boundary_iff_not_is_continuation_byte(p, lo);
        }
    }
}

/// `line[lo..hi]` as an owned string, or `None` where that index would panic.
pub fn slice_chars(line: &str, lo: usize, hi: usize) -> (r: Option<String>)
    ensures
        match r {
            Some(s) => byte_slice_chars(line.spec_bytes(), lo as int, hi as int) == Some(s@),
            None => byte_slice_chars(line.spec_bytes(), lo as int, hi as int) is None,
        },
{
    if lo <= hi && line.is_char_boundary(lo) && line.is_char_boundary(hi) {
        let ghost b = line.spec_bytes();
        proof {
            lemma_boundary_in_prefix(b, lo as int, hi as int);
        }
        let (left, _right) = line.split_at(hi);
        assert(left.spec_bytes() =~= b.subrange(0, hi as int));
        let (_pre, mid) = left.split_at(lo);
        assert(mid.spec_bytes() =~= b.subrange(lo as int, hi as int));
        let s = mid.to_owned();
        Some(s)
    } else {
        None
    }
}

/// The characters of `line`, in order.
pub fn chars_of(line: &str) -> (v: Vec<char>)
    ensures
        v@ == line@,
{
    let mut v: Vec<char> = Vec::new();
    for c in it: line.chars()
        invariant
            v@ == it.seq().take(it.index() as int),
    {
        v.push(c);
    }
    v
}

} // verus!
