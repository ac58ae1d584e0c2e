//! The materialization pipeline: derives the output directory, applies the
//! reordering rule, and lays out one numbered copy step per file.  The host
//! executes the resulting plan against the filesystem.

use vstd::prelude::*;
use crate::errors::CoreError;
use crate::paths::{extension_of, file_name_of, lemma_after_last_subrange, scan_path};
use crate::reorder::{reorder_files, reorder_seq};

verus! {

/// The decimal digit character for `d` (0 through 9).
pub open spec fn digit_char(d: int) -> char {
    if d == 0 {
        '0'
    } else if d == 1 {
        '1'
    } else if d == 2 {
        '2'
    } else if d == 3 {
        '3'
    } else if d == 4 {
        '4'
    } else if d == 5 {
        '5'
    } else if d == 6 {
        '6'
    } else if d == 7 {
        '7'
    } else if d == 8 {
        '8'
    } else {
        '9'
    }
}

/// The decimal digits of `n`, most significant first.
pub open spec fn dec_digits(n: int) -> Seq<char>
    decreases n,
{
    if n < 10 {
        seq![digit_char(n)]
    } else {
        dec_digits(n / 10).push(digit_char(n % 10))
    }
}

/// The decimal digits of `n`, zero-padded on the left to at least four
/// characters.
pub open spec fn zero_padded4(n: int) -> Seq<char> {
    let d = dec_digits(n);
    if d.len() >= 4 {
        d
    } else {
        Seq::new((4 - d.len()) as nat, |i: int| '0') + d
    }
}

/// The extension of `p`, or nothing at all when `p` has none.
pub open spec fn extension_or_empty(p: Seq<char>) -> Seq<char> {
    match extension_of(p) {
        Option::Some(e) => e,
        Option::None => Seq::empty(),
    }
}

/// The output file name for the element placed at 1-based position `rank`:
/// the zero-padded rank, a literal dot, and the source's extension exactly
/// as it appears in the source path (empty when the source has none).
pub open spec fn numbered_name(rank: int, source: Seq<char>) -> Seq<char> {
    zero_padded4(rank) + seq!['.'] + extension_or_empty(source)
}

/// `s` with its trailing `/` characters removed.
pub open spec fn strip_trailing_slashes(s: Seq<char>) -> Seq<char>
    decreases s.len(),
{
    if s.len() > 0 && s.last() == '/' {
        strip_trailing_slashes(s.drop_last())
    } else {
        s
    }
}

/// The output directory path: the folder's name with `_reordered` appended,
/// placed after the folder's parent prefix, so that the output directory is
/// a sibling of the folder.  Trailing `/` characters are ignored, as they
/// name the same folder.  A path with no usable name — empty, the root, or
/// one ending in the `..` component — falls back to the name `output`,
/// still after whatever parent prefix remains.
pub open spec fn output_dir_path(folder: Seq<char>) -> Seq<char> {
    let trimmed = strip_trailing_slashes(folder);
    let base = file_name_of(trimmed);
    let parent = trimmed.subrange(0, trimmed.len() - base.len());
    if base.len() == 0 || base == ".."@ {
        parent + "output"@ + "_reordered"@
    } else {
        parent + base + "_reordered"@
    }
}

/// One file copy of the plan: read `source`, write it under `dest_name`
/// inside the plan's output directory.
pub struct CopyStep {
    pub source: String,
    pub dest_name: String,
}

/// Everything the host needs to materialize a reordered folder: the
/// directory to create and the copies to perform, in order.
pub struct MaterializePlan {
    pub out_dir: String,
    pub steps: Vec<CopyStep>,
}

/// The single decimal digit `d` as a string.
fn digit_string(d: usize) -> (r: String)
    requires
        d < 10,
    ensures
        r@ == seq![digit_char(d as int)],
{
    proof {
        reveal_strlit("0");
        reveal_strlit("1");
        reveal_strlit("2");
        reveal_strlit("3");
        reveal_strlit("4");
        reveal_strlit("5");
        reveal_strlit("6");
        reveal_strlit("7");
        reveal_strlit("8");
        reveal_strlit("9");
    }
    let s: &str = if d == 0 {
        "0"
    } else if d == 1 {
        "1"
    } else if d == 2 {
        "2"
    } else if d == 3 {
        "3"
    } else if d == 4 {
        "4"
    } else if d == 5 {
        "5"
    } else if d == 6 {
        "6"
    } else if d == 7 {
        "7"
    } else if d == 8 {
        "8"
    } else {
        "9"
    };
    proof {
        assert(s@ =~= seq![digit_char(d as int)]);
    }
    String::from_str(s)
}

/// The decimal representation of `n`.
fn decimal_string(n: usize) -> (r: String)
    ensures
        r@ == dec_digits(n as int),
    decreases n,
{
    if n < 10 {
        digit_string(n)
    } else {
        let mut s = decimal_string(n / 10);
        let d = digit_string(n % 10);
        s.append(d.as_str());
        proof {
            assert(s@ =~= dec_digits(n as int / 10).push(digit_char(n as int % 10)));
        }
        s
    }
}

/// The decimal representation of `n`, zero-padded to at least four digits.
fn padded_decimal(n: usize) -> (r: String)
    ensures
        r@ == zero_padded4(n as int),
{
    let d = decimal_string(n);
    let dl = d.as_str().unicode_len();
    if dl >= 4 {
        d
    } else {
        proof {
            reveal_strlit("0");
        }
        let mut s = String::new();
        let mut k: usize = 0;
        while k < 4 - dl
            invariant
                dl == dec_digits(n as int).len(),
                dl < 4,
                k <= 4 - dl,
                s@ == Seq::new(k as nat, |i: int| '0'),
            decreases 4 - dl - k,
        {
            s.append("0");
            proof {
                reveal_strlit("0");
                assert(s@ =~= Seq::new((k + 1) as nat, |i: int| '0'));
            }
            k += 1;
        }
        s.append(d.as_str());
        proof {
            assert(s@ == zero_padded4(n as int));
        }
        s
    }
}

/// The output file name for 1-based position `rank` of a source path.
pub fn numbered_file_name(rank: usize, source: &str) -> (r: String)
    ensures
        r@ == numbered_name(rank as int, source@),
{
    let mut s = padded_decimal(rank);
    proof {
        reveal_strlit(".");
    }
    s.append(".");
    proof {
        assert("."@ =~= seq!['.']);
    }
    match crate::paths::extension_str(source) {
        Option::Some(e) => {
            s.append(e.as_str());
        },
        Option::None => {
            proof {
                assert(s@ =~= s@ + extension_or_empty(source@));
            }
        },
    }
    s
}

/// The output directory for a folder: its name with `_reordered` appended,
/// placed beside it.
pub fn output_dir(folder_path: &str) -> (r: String)
    ensures
        r@ == output_dir_path(folder_path@),
{
    let len = folder_path.unicode_len();

    // Drop trailing slashes: they name the same folder.
    let mut end: usize = len;
    proof {
        assert(folder_path@.subrange(0, len as int) =~= folder_path@);
    }
    while end > 0 && folder_path.get_char(end - 1) == '/'
        invariant
            end <= len,
            len == folder_path@.len(),
            strip_trailing_slashes(folder_path@) == strip_trailing_slashes(
                folder_path@.subrange(0, end as int),
            ),
        decreases end,
    {
        proof {
            let sub = folder_path@.subrange(0, end as int);
            assert(sub.last() == folder_path@[end - 1]);
            assert(sub.drop_last() =~= folder_path@.subrange(0, end as int - 1));
        }
        end -= 1;
    }
    let trimmed = folder_path.substring_char(0, end);
    proof {
        let sub = folder_path@.subrange(0, end as int);
        if end > 0 {
            assert(sub.last() == folder_path@[end - 1]);
        }
        assert(strip_trailing_slashes(sub) == sub);
        assert(trimmed@ == strip_trailing_slashes(folder_path@));
    }

    let (ns, _last_dot) = scan_path(trimmed);
    proof {
        lemma_after_last_subrange(trimmed@, '/', ns as int);
        assert(file_name_of(trimmed@) == trimmed@.subrange(ns as int, end as int));
    }
    let parent = trimmed.substring_char(0, ns);
    let base = trimmed.substring_char(ns, end);
    let ghost base_view = file_name_of(trimmed@);
    proof {
        assert(base@ == base_view);
        assert(parent@ == trimmed@.subrange(0, end - base_view.len()));
    }

    let base_len = base.unicode_len();
    let no_name = base_len == 0 || (base_len == 2 && base.get_char(0) == '.' && base.get_char(1)
        == '.');
    proof {
        reveal_strlit("..");
        assert(".."@ =~= seq!['.', '.']);
        if base_len == 2 && base@[0] == '.' && base@[1] == '.' {
            assert(base@ =~= ".."@);
        }
        assert(no_name == (base_view.len() == 0 || base_view == ".."@));
    }
    let mut s = String::from_str(parent);
    if no_name {
        s.append("output");
    } else {
        s.append(base);
    }
    s.append("_reordered");
    s
}

/// Computes the whole materialization plan for a folder and its file list.
///
/// An empty list is rejected with `EmptyInput` (and nothing else happens);
/// otherwise the plan holds the derived output directory and, for each
/// position of the reordered list, a copy of that source file under its
/// zero-padded, 1-based numbered name.
pub fn reorder_and_materialize(folder_path: &str, file_paths: &Vec<String>) -> (r: Result<
    MaterializePlan,
    CoreError,
>)
    ensures
        (file_paths@.len() == 0) == (r is Err),
        r matches Err(e) ==> e is EmptyInput,
        r matches Ok(plan) ==> {
            &&& plan.out_dir@ == output_dir_path(folder_path@)
            &&& plan.steps@.len() == file_paths@.len()
            &&& forall|i: int|
                0 <= i < plan.steps@.len() ==> (#[trigger] plan.steps@[i]).source == reorder_seq(
                    file_paths@,
                )[i]
            &&& forall|i: int|
                0 <= i < plan.steps@.len() ==> (#[trigger] plan.steps@[i]).dest_name@
                    == numbered_name(i + 1, reorder_seq(file_paths@)[i]@)
        },
{
    if file_paths.len() == 0 {
        return Err(CoreError::EmptyInput);
    }
    let out_dir = output_dir(folder_path);
    let reordered = reorder_files(file_paths);
    let mut steps: Vec<CopyStep> = Vec::new();
    let mut i: usize = 0;
    while i < reordered.len()
        invariant
            reordered@ == reorder_seq(file_paths@),
            reordered@.len() == file_paths@.len(),
            i <= reordered@.len(),
            steps@.len() == i,
            forall|k: int|
                0 <= k < i ==> (#[trigger] steps@[k]).source == reorder_seq(file_paths@)[k],
            forall|k: int|
                0 <= k < i ==> (#[trigger] steps@[k]).dest_name@ == numbered_name(
                    k + 1,
                    reorder_seq(file_paths@)[k]@,
                ),
        decreases reordered@.len() - i,
    {
        let name = numbered_file_name(i + 1, reordered[i].as_str());
        steps.push(CopyStep { source: reordered[i].clone(), dest_name: name });
        i += 1;
    }
    Ok(MaterializePlan { out_dir, steps })
}

} // verus!
