//! Frames as text for people to read: text as it is, errors with a prefix,
//! binary data in hexadecimal, arrays as their parts with spaces between.

use vstd::prelude::*;
use vstd::string::*;
use crate::buf::{bytes_as_slice, bytes_view};
use crate::frame::{Frame, FrameModel, views};

verus! {

pub open spec fn hex_digit(n: int) -> char {
    "0123456789abcdef"@[n]
}

/// Two lowercase hexadecimal digits for each byte, high digit first.
pub open spec fn hex_of(b: Seq<u8>) -> Seq<char>
    decreases b.len(),
{
    if b.len() == 0 {
        Seq::empty()
    } else {
        hex_of(b.drop_last()) + seq![hex_digit(b.last() as int / 16), hex_digit(b.last() as int % 16)]
    }
}

/// A frame as text.
pub open spec fn display(f: FrameModel) -> Seq<char>
    decreases f, 0nat,
{
    match f {
        FrameModel::Text(t) => t,
        FrameModel::Error(e) => "error: "@ + e,
        FrameModel::Binary(b) => hex_of(b),
        FrameModel::Array(items) => display_join(items, items.len()),
        FrameModel::Null => "(nil)"@,
    }
}

/// The first `k` of `items` as text, with one space between each two.
pub open spec fn display_join(items: Seq<FrameModel>, k: nat) -> Seq<char>
    decreases items, k,
{
    if k == 0 || k > items.len() {
        Seq::empty()
    } else if k == 1 {
        display(items[0])
    } else {
        display_join(items, (k - 1) as nat) + seq![' '] + display(items[k - 1])
    }
}

/// The bytes in lowercase hexadecimal, as `bytes` formats them with `{:x}`.
fn hex_string(b: &[u8]) -> (r: String)
    ensures
        r@ == hex_of(b@),
{
    let table = "0123456789abcdef";
    proof {
        reveal_strlit("0123456789abcdef");
    }
    let mut out = String::new();
    let mut i: usize = 0;
    while i < b.len()
        invariant
            i <= b@.len(),
            table@ == "0123456789abcdef"@,
            table@.len() == 16,
            out@ == hex_of(b@.take(i as int)),
        decreases b@.len() - i,
    {
        let hi = (b[i] / 16) as usize;
        let lo = (b[i] % 16) as usize;
        out.append(table.substring_char(hi, hi + 1));
        out.append(table.substring_char(lo, lo + 1));
        proof {
            assert(b@.take(i + 1).drop_last() =~= b@.take(i as int));
            assert(out@ =~= hex_of(b@.take(i + 1)));
        }
        i += 1;
    }
    proof {
        assert(b@.take(b@.len() as int) =~= b@);
    }
    out
}

impl Frame {
    /// The frame as text for people to read.
    pub fn to_display_string(&self) -> (r: String)
        ensures
            r@ == display(self@),
        decreases self,
    {
        match self {
            Frame::Text(txt) => {
                proof {
                    assert(display(self@) == txt@);
                }
                txt.as_str().to_owned()
            },
            Frame::Error(err) => {
                let mut out = "error: ".to_owned();
                out.append(err.as_str());
                out
            },
            Frame::Binary(binary) => hex_string(bytes_as_slice(binary)),
            Frame::Array(parts) => {
                let ghost items = views(parts@);
                proof {
                    reveal_strlit(" ");
                    if let FrameModel::Array(its) = self@ {
                        assert(its =~= items);
                    }
                }
                let mut out = String::new();
                let mut i: usize = 0;
                while i < parts.len()
                    invariant
                        self is Array,
                        self->Array_0 == *parts,
                        self@ == FrameModel::Array(items),
                        items == views(parts@),
                        i <= parts@.len(),
                        " "@ == seq![' '],
                        out@ == display_join(items, i as nat),
                    decreases parts@.len() - i,
                {
                    if i > 0 {
                        out.append(" ");
                    }
                    proof {
                        vstd::std_specs::vec::axiom_vec_index_decreases(*parts, i as int);
                        assert(decreases_to!(*self => self->Array_0));
                    }
                    let part = parts[i].to_display_string();
                    out.append(part.as_str());
                    i += 1;
                }
                out
            },
            Frame::Null => "(nil)".to_owned(),
        }
    }
}

} // verus!
