//! Textual layout helpers for displaying habit data: the fixed-width header
//! line of the diary tables. Colored bar rendering lives with the caller.
use vstd::prelude::*;

use crate::datafile::bytes_to_string;

verus! {

/// A sequence of ASCII bytes is valid UTF-8.
pub proof fn lemma_ascii_bytes_valid_utf8(b: Seq<u8>)
    requires
        forall|i: int| 0 <= i < b.len() ==> #[trigger] b[i] <= 0x7f,
    ensures
        vstd::utf8::valid_utf8(b),
{
    assert(vstd::utf8::partial_valid_utf8(b, 0)) by {
        assert(b.subrange(0, 0) =~= Seq::<u8>::empty());
        reveal_with_fuel(vstd::utf8::valid_utf8, 1);
    }
    vstd::utf8::partial_valid_utf8_extend_ascii_block(b, 0, b.len() as int);
    assert(b.subrange(0, b.len() as int) =~= b);
}

/// The three bytes a header name occupies: a short name padded with spaces,
/// a longer one cut to its first three bytes.
pub open spec fn header_cell_bytes(name: Seq<u8>) -> Seq<u8> {
    if name.len() == 1 {
        seq![32u8, name[0], 32u8]
    } else if name.len() == 2 {
        seq![32u8, name[0], name[1]]
    } else {
        seq![name[0], name[1], name[2]]
    }
}

/// The header line of the diary tables: ten leading spaces, then one
/// four-byte cell per category (a space and three name bytes).
pub open spec fn header_line_bytes(names: Seq<Seq<u8>>) -> Seq<u8>
    decreases names.len(),
{
    if names.len() == 0 {
        seq![
            32u8, 32u8, 32u8, 32u8, 32u8, 32u8, 32u8, 32u8, 32u8, 32u8,
        ]
    } else {
        header_line_bytes(names.drop_last()) + seq![32u8] + header_cell_bytes(names.last())
    }
}

/// Prints a header line for the given category names, each squeezed into a
/// three-byte cell. Names must be plain ASCII and non-empty.
pub fn pretty_print_header(headers: &Vec<String>) -> (r: String)
    requires
        forall|i: int| 0 <= i < headers@.len() ==> (#[trigger] headers@[i]).is_ascii(),
        forall|i: int| 0 <= i < headers@.len() ==> (#[trigger] headers@[i])@.len() >= 1,
    ensures
        vstd::utf8::encode_utf8(r@) == header_line_bytes(
            headers@.map_values(|s: String| vstd::utf8::encode_utf8(s@)),
        ) + seq![10u8],
{
    let ghost names = headers@.map_values(|s: String| vstd::utf8::encode_utf8(s@));
    let mut out: Vec<u8> = Vec::new();
    let mut p: usize = 0;
    while p < 10
        invariant
            0 <= p <= 10,
            out@.len() == p,
            forall|j: int| 0 <= j < p ==> out@[j] == 32u8,
        decreases 10 - p,
    {
        out.push(32);
        p = p + 1;
    }
    proof {
        assert(out@ =~= header_line_bytes(names.take(0)));
    }
    let mut i: usize = 0;
    while i < headers.len()
        invariant
            0 <= i <= headers@.len(),
            names == headers@.map_values(|s: String| vstd::utf8::encode_utf8(s@)),
            forall|k: int| 0 <= k < headers@.len() ==> (#[trigger] headers@[k]).is_ascii(),
            forall|k: int| 0 <= k < headers@.len() ==> (#[trigger] headers@[k])@.len() >= 1,
            out@ == header_line_bytes(names.take(i as int)),
            forall|j: int| 0 <= j < out@.len() ==> #[trigger] out@[j] <= 0x7f,
        decreases headers@.len() - i,
    {
        let sref = headers[i].as_str();
        let b = sref.as_bytes();
        proof {
            vstd::string::is_ascii_spec_bytes(sref);
            assert(b@ == names[i as int]);
            assert(b@.len() == headers@[i as int]@.len());
            assert(forall|j: int| 0 <= j < b@.len() ==> #[trigger] b@[j] <= 0x7f);
        }
        out.push(32);
        if b.len() == 1 {
            out.push(32);
            out.push(b[0]);
            out.push(32);
        } else if b.len() == 2 {
            out.push(32);
            out.push(b[0]);
            out.push(b[1]);
        } else {
            out.push(b[0]);
            out.push(b[1]);
            out.push(b[2]);
        }
        proof {
            assert(names.take(i as int + 1).drop_last() =~= names.take(i as int));
            assert(names.take(i as int + 1).last() == names[i as int]);
            assert(out@ =~= header_line_bytes(names.take(i as int + 1)));
        }
        i = i + 1;
    }
    out.push(10);
    proof {
        assert(names.take(names.len() as int) =~= names);
        lemma_ascii_bytes_valid_utf8(out@);
    }
    let ghost out_bytes = out@;
    match bytes_to_string(out) {
        Some(s) => {
            proof {
                assert(vstd::utf8::encode_utf8(s@) == out_bytes);
            }
            s
        },
        None => {
            proof {
                assert(false);
            }
            String::new()
        },
    }
}

} // verus!
