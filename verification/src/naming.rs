//! The names of imported resources: the last part of a path, made unique
//! under a parent by a number in front of the extension.

use crate::common::{ResourceId, ResourceStoreError};
use crate::index::{sibling_taken, Index, RowModel};
use crate::strings::{chars_of, decimal, decimal_text, find_last, last_place, text_between};
use vstd::prelude::*;

verus! {

/// The name of the file of a path: what follows its last slash.
pub open spec fn base_name(path: Seq<char>) -> Seq<char> {
    match last_place(path, '/') {
        Some(i) => path.skip(i + 1),
        None => path,
    }
}

/// Where the extension of a name starts: at its last dot, or at its end
/// if it has none.
pub open spec fn extension_start(name: Seq<char>) -> int {
    match last_place(name, '.') {
        Some(i) => i,
        None => name.len() as int,
    }
}

/// A name with a number in parentheses in front of its extension.
pub open spec fn numbered(name: Seq<char>, number: nat) -> Seq<char> {
    name.take(extension_start(name)) + seq!['('] + decimal_text(number) + seq![')'] + name.skip(
        extension_start(name),
    )
}

/// Whether `found` is the name that a new child of `parent` gets when it
/// asks for `name`: the name itself if it is free, else the name with the
/// smallest number, from 1 on, that makes it free.
pub open spec fn is_free_name(
    rows: Seq<RowModel>,
    parent: Seq<char>,
    name: Seq<char>,
    found: Seq<char>,
) -> bool {
    if !sibling_taken(rows, parent, name) {
        found == name
    } else {
        exists|number: nat|
            1 <= number && found == #[trigger] numbered(name, number) && !sibling_taken(
                rows,
                parent,
                found,
            ) && forall|smaller: nat|
                1 <= smaller < number ==> sibling_taken(
                    rows,
                    parent,
                    #[trigger] numbered(name, smaller),
                )
    }
}

/// The name of the file of a path.
pub fn file_name(path: &str) -> (name: String)
    ensures
        name@ == base_name(path@),
{
    let chars = chars_of(path);
    let n = chars.len();
    match find_last(&chars, '/') {
        Some(i) => text_between(&chars, i + 1, n),
        None => text_between(&chars, 0, n),
    }
}

/// A name with a number in parentheses in front of its extension.
pub fn numbered_name(name: &str, number: u32) -> (found: String)
    ensures
        found@ == numbered(name@, number as nat),
{
    let chars = chars_of(name);
    let cut = match find_last(&chars, '.') {
        Some(i) => i,
        None => chars.len(),
    };
    let stem = text_between(&chars, 0, cut);
    let extension = text_between(&chars, cut, chars.len());
    let digits = decimal(number as u64);
    proof {
        reveal_strlit("(");
        reveal_strlit(")");
        assert("("@ =~= seq!['(']);
        assert(")"@ =~= seq![')']);
    }
    stem.concat("(").concat(digits.as_str()).concat(")").concat(extension.as_str())
}

/// Whether a name is taken under a parent, with every number that can
/// go in front of its extension.
pub open spec fn none_free(rows: Seq<RowModel>, parent: Seq<char>, name: Seq<char>) -> bool {
    &&& sibling_taken(rows, parent, name)
    &&& forall|number: nat|
        1 <= number <= u32::MAX ==> sibling_taken(rows, parent, #[trigger] numbered(name, number))
}

/// The name that a new child of a parent gets when it asks for a name.
/// There is none if the name is taken with every number.
pub fn free_name(index: &Index, parent: &ResourceId, name: &str) -> (found: Result<
    String,
    ResourceStoreError,
>)
    ensures
        match found {
            Ok(text) => !none_free(index@, parent@, name@) && is_free_name(
                index@,
                parent@,
                name@,
                text@,
            ),
            Err(error) => none_free(index@, parent@, name@) && error.is_custom("NoFreeName"@),
        },
{
    if !index.name_taken(parent, name) {
        return Ok(name.to_owned());
    }
    let mut number: u32 = 1;
    loop
        invariant
            1 <= number,
            sibling_taken(index@, parent@, name@),
            forall|smaller: nat|
                1 <= smaller < number ==> sibling_taken(
                    index@,
                    parent@,
                    #[trigger] numbered(name@, smaller),
                ),
        decreases u32::MAX - number,
    {
        let candidate = numbered_name(name, number);
        if !index.name_taken(parent, candidate.as_str()) {
            return Ok(candidate);
        }
        if number == u32::MAX {
            return Err(ResourceStoreError::custom("NoFreeName"));
        }
        number += 1;
    }
}

} // verus!
