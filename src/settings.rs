use vstd::prelude::*;

use crate::text::{chars_of, same_chars, string_of};

verus! {

pub open spec fn image_label_default() -> Seq<char> {
    seq!['I', 'm', 'a', 'g', 'e']
}

pub open spec fn folder_label_default() -> Seq<char> {
    seq!['F', 'o', 'l', 'd', 'e', 'r']
}

pub open spec fn stored_or(stored: Option<String>, default: Seq<char>) -> Seq<char> {
    match stored {
        Some(s) => s@,
        None => default,
    }
}

fn text_of(v: Vec<char>) -> (r: String)
    ensures
        r@ == v@,
{
    string_of(v.as_slice())
}

/// The label shown for single-image works: the stored one, else `Image`.
pub fn image_label(stored: Option<String>) -> (r: String)
    ensures
        r@ == stored_or(stored, image_label_default()),
{
    match stored {
        Some(s) => s,
        None => {
            let d = vec!['I', 'm', 'a', 'g', 'e'];
            assert(d@ =~= image_label_default());
            text_of(d)
        },
    }
}

/// The label shown for folder works: the stored one, else `Folder`.
pub fn folder_label(stored: Option<String>) -> (r: String)
    ensures
        r@ == stored_or(stored, folder_label_default()),
{
    match stored {
        Some(s) => s,
        None => {
            let d = vec!['F', 'o', 'l', 'd', 'e', 'r'];
            assert(d@ =~= folder_label_default());
            text_of(d)
        },
    }
}

/// The label of a work type: `image` and `folder` have the labels given for them, any
/// other type is shown as it is written.
pub open spec fn type_label_for(
    work_type: Seq<char>,
    image: Seq<char>,
    folder: Seq<char>,
) -> Seq<char> {
    if work_type == seq!['i', 'm', 'a', 'g', 'e'] {
        image
    } else if work_type == seq!['f', 'o', 'l', 'd', 'e', 'r'] {
        folder
    } else {
        work_type
    }
}

pub fn label_for_type(work_type: &str, image_label: String, folder_label: String) -> (r: String)
    ensures
        r@ == type_label_for(work_type@, image_label@, folder_label@),
{
    let t = chars_of(work_type);
    let image = vec!['i', 'm', 'a', 'g', 'e'];
    let folder = vec!['f', 'o', 'l', 'd', 'e', 'r'];
    assert(image@ =~= seq!['i', 'm', 'a', 'g', 'e']);
    assert(folder@ =~= seq!['f', 'o', 'l', 'd', 'e', 'r']);
    if same_chars(t.as_slice(), image.as_slice()) {
        image_label
    } else if same_chars(t.as_slice(), folder.as_slice()) {
        folder_label
    } else {
        text_of(t)
    }
}

} // verus!
