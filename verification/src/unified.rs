//! Line-oriented unified diffs of multi-line text, computed by the `diffy`
//! crate behind one trusted boundary.

use vstd::prelude::*;

verus! {

/// The hunks of the unified diff between two texts, as `diffy` renders them
/// after the two `---`/`+++` header lines: a deterministic function of the two
/// texts alone (three context lines, compaction on).
pub uninterp spec fn patch_body(a: Seq<char>, b: Seq<char>) -> Seq<char>;

/// A character that `diffy` writes into a patch header verbatim, without
/// triggering its quoting of control characters, quotes and backslashes.
pub open spec fn plain_label_char(c: char) -> bool {
    0x20 <= (c as u32) && (c as u32) != 0x7f && c != '"' && c != '\\'
}

/// Relies on `diffy::DiffOptions::{set_original_filename, set_modified_filename,
/// create_patch}`, `diffy::Patch::hunks` and `diffy::Patch`'s `Display`: the
/// rendered patch is the `--- <a_name>` / `+++ <b_name>` header followed by the
/// hunks, and the hunk list is empty exactly when the two texts are equal
/// (equal texts split into equal line sequences and the Myers diff of equal
/// sequences has no insertion or deletion to report; different texts split into
/// different line sequences, which yield at least one hunk).
#[verifier::external_body]
pub fn unified_patch(a: &str, b: &str, a_name: &str, b_name: &str) -> (r: (usize, String))
    requires
        forall|i: int| 0 <= i < a_name@.len() ==> plain_label_char(#[trigger] a_name@[i]),
        forall|i: int| 0 <= i < b_name@.len() ==> plain_label_char(#[trigger] b_name@[i]),
    ensures
        (r.0 == 0) <==> (a@ == b@),
        r.1@ == "--- "@ + a_name@ + "\n"@ + "+++ "@ + b_name@ + "\n"@ + patch_body(a@, b@),
{
    let mut options = diffy::DiffOptions::new();
    options.set_original_filename(a_name.to_string());
    options.set_modified_filename(b_name.to_string());
    let patch = options.create_patch(a, b);
    (patch.hunks().len(), patch.to_string())
}

/// The unified diff of two texts under the report's own side labels.
pub fn installed_upgraded_patch(a: &str, b: &str) -> (r: (usize, String))
    ensures
        (r.0 == 0) <==> (a@ == b@),
        r.1@ == "--- "@ + "installed"@ + "\n"@ + "+++ "@ + "upgraded"@ + "\n"@ + patch_body(
            a@,
            b@,
        ),
{
    proof {
        reveal_strlit("installed");
        reveal_strlit("upgraded");
        assert forall|i: int| 0 <= i < "installed"@.len() implies plain_label_char(
            #[trigger] "installed"@[i],
        ) by {
            reveal_strlit("installed");
        }
        assert forall|i: int| 0 <= i < "upgraded"@.len() implies plain_label_char(
            #[trigger] "upgraded"@[i],
        ) by {
            reveal_strlit("upgraded");
        }
    }
    unified_patch(a, b, "installed", "upgraded")
}

} // verus!
