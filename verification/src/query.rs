//! Metadata queries: which labels a query may name.

use vstd::prelude::*;

use crate::error::Error;

verus! {

/// Unicode `White_Space`: the characters that `str::trim` strips.
pub open spec fn is_white_space(c: char) -> bool {
    let u = c as u32;
    ||| 0x09 <= u <= 0x0d
    ||| u == 0x20
    ||| u == 0x85
    ||| u == 0xa0
    ||| u == 0x1680
    ||| 0x2000 <= u <= 0x200a
    ||| u == 0x2028
    ||| u == 0x2029
    ||| u == 0x202f
    ||| u == 0x205f
    ||| u == 0x3000
}

/// Nothing is left of the text once white space is trimmed off.
pub open spec fn is_blank(text: Seq<char>) -> bool {
    forall|i: int| 0 <= i < text.len() ==> is_white_space(#[trigger] text[i])
}

fn char_is_white_space(c: char) -> (white: bool)
    ensures
        white == is_white_space(c),
{
    let u = c as u32;
    (0x09 <= u && u <= 0x0d) || u == 0x20 || u == 0x85 || u == 0xa0 || u == 0x1680 || (0x2000
        <= u && u <= 0x200a) || u == 0x2028 || u == 0x2029 || u == 0x202f || u == 0x205f || u
        == 0x3000
}

/// Admit a metadata label: a label that trims to nothing is refused with
/// `Error::EmptyLabel`, every other label is accepted.
pub fn check_query_label(label: &str) -> (checked: Result<(), Error>)
    ensures
        !is_blank(label@) <==> checked is Ok,
        is_blank(label@) <==> checked == Err::<(), Error>(Error::EmptyLabel),
{
    let mut blank = true;
    for c in iter: label.chars()
        invariant
            iter.seq() == label@,
            blank <==> (forall|i: int| 0 <= i < iter.index() ==> is_white_space(#[trigger] label@[i])),
    {
        if !char_is_white_space(c) {
            blank = false;
        }
    }
    if blank {
        Err(Error::EmptyLabel)
    } else {
        Ok(())
    }
}

/// The code points of Unicode's `White_Space` property, in order.
pub open spec fn white_space_code_points() -> Seq<u32> {
    seq![
        0x09u32, 0x0a, 0x0b, 0x0c, 0x0d, 0x20, 0x85, 0xa0, 0x1680, 0x2000, 0x2001, 0x2002, 0x2003,
        0x2004, 0x2005, 0x2006, 0x2007, 0x2008, 0x2009, 0x200a, 0x2028, 0x2029, 0x202f, 0x205f, 0x3000,
    ]
}

/// A character is trimmed exactly when its code point has the Unicode
/// `White_Space` property; a label is refused exactly when every character
/// of it is.
pub proof fn lemma_white_space_is_the_unicode_set(c: char, label: Seq<char>)
    ensures
        is_white_space(c) <==> white_space_code_points().contains(c as u32),
        is_blank(label) <==> forall|i: int| 0 <= i < label.len() ==> white_space_code_points().contains(
            #[trigger] label[i] as u32,
        ),
{
    lemma_white_space_one(c);
    let points = white_space_code_points();
    assert forall|i: int| 0 <= i < label.len() implies (is_white_space(label[i]) <==> points.contains(
        #[trigger] label[i] as u32,
    )) by {
        lemma_white_space_one(label[i]);
    }
}

proof fn lemma_white_space_one(c: char)
    ensures
        is_white_space(c) <==> white_space_code_points().contains(c as u32),
{
    let points = white_space_code_points();
    let u = c as u32;
    if is_white_space(c) {
        if u <= 0x0d { assert(points[(u - 0x09) as int] == u); }
        else if u == 0x20 { assert(points[5] == u); }
        else if u == 0x85 { assert(points[6] == u); }
        else if u == 0xa0 { assert(points[7] == u); }
        else if u == 0x1680 { assert(points[8] == u); }
        else if u <= 0x200a { assert(points[(u - 0x2000 + 9) as int] == u); }
        else if u == 0x2028 { assert(points[20] == u); }
        else if u == 0x2029 { assert(points[21] == u); }
        else if u == 0x202f { assert(points[22] == u); }
        else if u == 0x205f { assert(points[23] == u); }
        else { assert(points[24] == u); }
    }
    if points.contains(u) {
        let k = choose|k: int| 0 <= k < points.len() && points[k] == u;
        assert(is_white_space(c));
    }
}

} // verus!
