//! The shape of an archive: which kind of input a file is, and how the
//! JSON of a script file is laid bare.
//!
//! The data files of an archive are scripts that assign JSON to a global,
//! `window.<name> = [...]`. Taking the assignment away once leaves the JSON.

use vstd::prelude::*;
use vstd::string::*;
use crate::text::chars_of;

verus! {

/// What a file holds, told by its extension.
#[derive(Clone, Copy, Debug, PartialEq, Eq, Structural)]
pub enum InputKind {
    /// A zipped archive, with a manifest that names its data files.
    Archive,
    /// One script file that assigns the Tweets to a global.
    Script,
    /// The Tweets as plain JSON.
    Json,
    /// Nothing that can be read.
    Unknown,
}

/// The kind of input that a file with extension `extension` holds.
pub open spec fn kind_of(extension: Seq<char>) -> InputKind {
    if extension == "zip"@ {
        InputKind::Archive
    } else if extension == "js"@ {
        InputKind::Script
    } else if extension == "json"@ {
        InputKind::Json
    } else {
        InputKind::Unknown
    }
}

/// `pattern` stands in `text` at index `at`.
pub open spec fn occurs_at(text: Seq<char>, pattern: Seq<char>, at: int) -> bool {
    0 <= at && at + pattern.len() <= text.len() && text.subrange(at, at + pattern.len())
        == pattern
}

/// Index `at` is the first at which `pattern` stands in `text`.
pub open spec fn first_occurrence(text: Seq<char>, pattern: Seq<char>, at: int) -> bool {
    occurs_at(text, pattern, at) && forall|before: int|
        0 <= before < at ==> !occurs_at(text, pattern, before)
}

/// `text` without the first occurrence of `pattern`; `text` itself where
/// `pattern` does not occur.
pub open spec fn without_first(text: Seq<char>, pattern: Seq<char>) -> Seq<char> {
    if exists|at: int| first_occurrence(text, pattern, at) {
        let at = choose|at: int| first_occurrence(text, pattern, at);
        text.take(at) + text.skip(at + pattern.len())
    } else {
        text
    }
}

/// The assignment in front of the JSON of the manifest.
pub open spec fn manifest_assignment() -> Seq<char> {
    "window.__THAR_CONFIG = "@
}

/// The assignment in front of the JSON of a data file whose global is
/// `global_name`.
pub open spec fn assignment(global_name: Seq<char>) -> Seq<char> {
    "window."@ + global_name + " = "@
}

fn matches_at(text: &Vec<char>, pattern: &Vec<char>, at: usize) -> (found: bool)
    requires
        at + pattern.len() <= text.len(),
    ensures
        found == occurs_at(text@, pattern@, at as int),
{
    let ghost window = text@.subrange(at as int, at + pattern.len());
    let mut k: usize = 0;
    while k < pattern.len()
        invariant
            k <= pattern.len(),
            at + pattern.len() <= text.len(),
            window == text@.subrange(at as int, at + pattern.len()),
            forall|j: int| 0 <= j < k ==> window[j] == pattern@[j],
        decreases pattern.len() - k,
    {
        if text[at + k] != pattern[k] {
            assert(window[k as int] != pattern@[k as int]);
            return false;
        }
        k += 1;
    }
    assert(window =~= pattern@);
    true
}

/// Whether two texts are the same, character by character.
fn same_text(left: &str, right: &str) -> (same: bool)
    ensures
        same == (left@ == right@),
{
    let left_chars = chars_of(left);
    let right_chars = chars_of(right);
    if left_chars.len() != right_chars.len() {
        return false;
    }
    let same = matches_at(&left_chars, &right_chars, 0);
    assert(left@.subrange(0, left@.len() as int) =~= left@);
    same
}

/// The kind of input that a file with extension `extension` holds: `zip`
/// is an archive, `js` a script, `json` plain JSON, and nothing else is
/// known. Upper and lower case are told apart.
pub fn input_kind(extension: &str) -> (kind: InputKind)
    ensures
        kind == kind_of(extension@),
{
    if same_text(extension, "zip") {
        InputKind::Archive
    } else if same_text(extension, "js") {
        InputKind::Script
    } else if same_text(extension, "json") {
        InputKind::Json
    } else {
        InputKind::Unknown
    }
}

/// `text` without the first occurrence of `pattern`.
pub fn strip_first(text: &str, pattern: &str) -> (out: String)
    ensures
        out@ == without_first(text@, pattern@),
{
    let chars = chars_of(text);
    let wanted = chars_of(pattern);
    if wanted.len() > chars.len() {
        return text.to_owned();
    }
    let last = chars.len() - wanted.len();
    let mut at: usize = 0;
    loop
        invariant
            chars@ == text@,
            wanted@ == pattern@,
            last + wanted.len() == chars.len(),
            at <= last,
            forall|before: int| 0 <= before < at ==> !occurs_at(text@, pattern@, before),
        ensures
            forall|before: int| !occurs_at(text@, pattern@, before),
        decreases last - at,
    {
        if matches_at(&chars, &wanted, at) {
            let mut out = String::new();
            let mut k: usize = 0;
            while k < at
                invariant
                    k <= at <= chars.len(),
                    out@ == chars@.take(k as int),
                decreases at - k,
            {
                out.push(chars[k]);
                assert(chars@.take(k + 1) =~= chars@.take(k as int).push(chars@[k as int]));
                k += 1;
            }
            let from = at + wanted.len();
            let mut k: usize = from;
            while k < chars.len()
                invariant
                    from <= k <= chars.len(),
                    out@ == chars@.take(at as int) + chars@.subrange(from as int, k as int),
                decreases chars.len() - k,
            {
                out.push(chars[k]);
                assert(chars@.subrange(from as int, k + 1) =~= chars@.subrange(
                    from as int,
                    k as int,
                ).push(chars@[k as int]));
                k += 1;
            }
            proof {
                assert(chars@.subrange(from as int, chars@.len() as int) =~= chars@.skip(
                    from as int,
                ));
                assert(first_occurrence(text@, pattern@, at as int));
                let chosen = choose|first: int| first_occurrence(text@, pattern@, first);
                assert(chosen == at);
            }
            return out;
        }
        if at == last {
            break;
        }
        at += 1;
    }
    text.to_owned()
}

/// The JSON of the manifest script `script`.
pub fn manifest_json(script: &str) -> (out: String)
    ensures
        out@ == without_first(script@, manifest_assignment()),
{
    strip_first(script, "window.__THAR_CONFIG = ")
}

/// The JSON of the data script `script`, whose global the manifest names
/// `global_name`.
pub fn data_json(script: &str, global_name: &str) -> (out: String)
    ensures
        out@ == without_first(script@, assignment(global_name@)),
{
    let mut pattern = String::from_str("window.");
    pattern.append(global_name);
    pattern.append(" = ");
    strip_first(script, pattern.as_str())
}

} // verus!
