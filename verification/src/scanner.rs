//! The scanner: filters a folder listing down to image files and sorts the
//! surviving paths.

use vstd::prelude::*;
use vstd::seq_lib::lemma_multiset_commutative;
use crate::errors::CoreError;
use crate::paths::{eq_ignore_ascii_case, extension_of, extension_str, lex_le,
    lemma_lex_le_antisymmetric, lemma_lex_le_refl, lemma_lex_le_total, lemma_lex_le_trans, str_le};

verus! {

/// One direct child of a folder, as the host read it from the directory
/// listing: its path exactly as listed, and whether it is a regular file.
pub struct DirEntry {
    pub path: String,
    pub is_file: bool,
}

/// What the host found when it looked at a folder path.
pub enum FolderSnapshot {
    /// The path does not exist.
    Missing,
    /// The path exists but is not a directory.
    NotDirectory,
    /// The directory exists but could not be read; carries the cause text.
    Unreadable { cause: String },
    /// The direct children of the directory, in any order.
    Listed { entries: Vec<DirEntry> },
}

/// A lower-cased extension is an image extension when it is one of
/// jpg, jpeg, png, gif, bmp, webp, tiff, tif (matched case-insensitively).
pub open spec fn is_image_ext(e: Seq<char>) -> bool {
    ||| eq_ignore_ascii_case(e, "jpg"@)
    ||| eq_ignore_ascii_case(e, "jpeg"@)
    ||| eq_ignore_ascii_case(e, "png"@)
    ||| eq_ignore_ascii_case(e, "gif"@)
    ||| eq_ignore_ascii_case(e, "bmp"@)
    ||| eq_ignore_ascii_case(e, "webp"@)
    ||| eq_ignore_ascii_case(e, "tiff"@)
    ||| eq_ignore_ascii_case(e, "tif"@)
}

/// A path has an image extension when its file name has an extension and
/// that extension is in the image set.
pub open spec fn has_image_extension(p: Seq<char>) -> bool {
    match extension_of(p) {
        Option::Some(e) => is_image_ext(e),
        Option::None => false,
    }
}

/// The scanner keeps an entry when it is a regular file with an image
/// extension.
pub open spec fn is_eligible(e: DirEntry) -> bool {
    e.is_file && has_image_extension(e.path@)
}

/// The predicate `is_eligible`, as a value usable with `filter`.
pub open spec fn eligible_pred() -> spec_fn(DirEntry) -> bool {
    |e: DirEntry| is_eligible(e)
}

/// The paths of the eligible entries, in listing order.
pub open spec fn eligible_paths(es: Seq<DirEntry>) -> Seq<String> {
    es.filter(eligible_pred()).map_values(|e: DirEntry| e.path)
}

/// A path list is sorted when the paths ascend in lexicographic order.
pub open spec fn paths_sorted(v: Seq<String>) -> bool {
    forall|i: int, j: int| 0 <= i < j < v.len() ==> lex_le(v[i]@, v[j]@)
}

/// The image extension set, for callers and tests to enumerate.
pub fn image_extensions() -> (r: Vec<String>)
    ensures
        r@.len() == 8,
        r@[0]@ == "jpg"@,
        r@[1]@ == "jpeg"@,
        r@[2]@ == "png"@,
        r@[3]@ == "gif"@,
        r@[4]@ == "bmp"@,
        r@[5]@ == "webp"@,
        r@[6]@ == "tiff"@,
        r@[7]@ == "tif"@,
        forall|i: int| 0 <= i < 8 ==> is_image_ext((#[trigger] r@[i])@),
{
    let mut v: Vec<String> = Vec::new();
    v.push(String::from_str("jpg"));
    v.push(String::from_str("jpeg"));
    v.push(String::from_str("png"));
    v.push(String::from_str("gif"));
    v.push(String::from_str("bmp"));
    v.push(String::from_str("webp"));
    v.push(String::from_str("tiff"));
    v.push(String::from_str("tif"));
    v
}

/// Tests a candidate extension against the image extension set,
/// ASCII-case-insensitively.
pub fn is_image_extension(e: &str) -> (r: bool)
    ensures
        r == is_image_ext(e@),
{
    if eq_ignore_case(e, "jpg") {
        return true;
    }
    if eq_ignore_case(e, "jpeg") {
        return true;
    }
    if eq_ignore_case(e, "png") {
        return true;
    }
    if eq_ignore_case(e, "gif") {
        return true;
    }
    if eq_ignore_case(e, "bmp") {
        return true;
    }
    if eq_ignore_case(e, "webp") {
        return true;
    }
    if eq_ignore_case(e, "tiff") {
        return true;
    }
    if eq_ignore_case(e, "tif") {
        return true;
    }
    false
}

/// Character-wise ASCII-case-insensitive comparison of two strings.
fn eq_ignore_case(a: &str, b: &str) -> (r: bool)
    ensures
        r == eq_ignore_ascii_case(a@, b@),
{
    let a_len = a.unicode_len();
    let b_len = b.unicode_len();
    if a_len != b_len {
        return false;
    }
    let mut i: usize = 0;
    while i < a_len
        invariant
            a_len == a@.len(),
            b_len == b@.len(),
            a_len == b_len,
            i <= a_len,
            forall|j: int| 0 <= j < i ==> crate::paths::lower_code(a@[j]) == crate::paths::lower_code(
                b@[j],
            ),
        decreases a_len - i,
    {
        let ca = a.get_char(i) as u32;
        let cb = b.get_char(i) as u32;
        let la = if 65 <= ca && ca <= 90 {
            ca + 32
        } else {
            ca
        };
        let lb = if 65 <= cb && cb <= 90 {
            cb + 32
        } else {
            cb
        };
        if la != lb {
            return false;
        }
        i += 1;
    }
    true
}

/// A sequence with one element inserted has that element added to its
/// multiset.
proof fn lemma_insert_multiset<A>(s: Seq<A>, p: int, x: A)
    requires
        0 <= p <= s.len(),
    ensures
        s.insert(p, x).to_multiset() =~= s.to_multiset().insert(x),
{
    broadcast use vstd::seq_lib::group_to_multiset_ensures;
    broadcast use vstd::multiset::group_multiset_axioms;

    let a = s.subrange(0, p);
    let b = s.subrange(p, s.len() as int);
    assert(s.insert(p, x) == a.push(x) + b);
    lemma_multiset_commutative(a.push(x), b);
    lemma_multiset_commutative(a, b);
    assert(s =~= a + b);
    assert(a.push(x).to_multiset() =~= a.to_multiset().insert(x));
}

/// Sorts a list of paths in ascending lexicographic order, keeping exactly
/// the same paths.
#[verifier::rlimit(50)]
pub fn sort_paths(input: Vec<String>) -> (r: Vec<String>)
    ensures
        paths_sorted(r@),
        r@.to_multiset() == input@.to_multiset(),
        r@.len() == input@.len(),
{
    broadcast use vstd::seq_lib::group_to_multiset_ensures;
    broadcast use vstd::multiset::group_multiset_axioms;

    let mut out: Vec<String> = Vec::new();
    let mut i: usize = 0;
    proof {
        assert(input@.subrange(0, 0) =~= Seq::<String>::empty());
    }
    while i < input.len()
        invariant
            i <= input@.len(),
            paths_sorted(out@),
            out@.to_multiset() == input@.subrange(0, i as int).to_multiset(),
            out@.len() == i,
        decreases input@.len() - i,
    {
        let x = input[i].clone();
        let ghost pre_out = out@;
        let mut p: usize = 0;
        loop
            invariant_except_break
                p <= out@.len(),
                out@ == pre_out,
                forall|k: int| 0 <= k < p ==> !lex_le(x@, (#[trigger] out@[k])@),
            ensures
                p <= out@.len(),
                out@ == pre_out,
                forall|k: int| 0 <= k < p ==> !lex_le(x@, (#[trigger] out@[k])@),
                p < out@.len() ==> lex_le(x@, out@[p as int]@),
            decreases out@.len() - p,
        {
            if p == out.len() {
                break ;
            }
            if str_le(x.as_str(), out[p].as_str()) {
                break ;
            }
            p += 1;
        }
        out.insert(p, x);
        proof {
            broadcast use vstd::seq_lib::group_to_multiset_ensures;
            broadcast use vstd::multiset::group_multiset_axioms;

            let t = out@;
            assert(t == pre_out.insert(p as int, x));
            pre_out.insert_ensures(p as int, x);
            assert forall|a: int, b: int| 0 <= a < b < t.len() implies lex_le(t[a]@, t[b]@) by {
                if b < p {
                    assert(lex_le(pre_out[a]@, pre_out[b]@));
                } else if a < p && b == p {
                    assert(!lex_le(x@, pre_out[a]@));
                    lemma_lex_le_total(x@, pre_out[a]@);
                } else if a < p && b > p {
                    assert(t[b] == pre_out[b - 1]);
                    assert(lex_le(pre_out[a]@, pre_out[b - 1]@));
                } else if a == p && b > p {
                    assert(t[b] == pre_out[b - 1]);
                    assert(p < pre_out.len());
                    assert(lex_le(x@, pre_out[p as int]@));
                    if b - 1 > p {
                        assert(lex_le(pre_out[p as int]@, pre_out[b - 1]@));
                        lemma_lex_le_trans(x@, pre_out[p as int]@, pre_out[b - 1]@);
                    }
                } else {
                    assert(t[a] == pre_out[a - 1]);
                    assert(t[b] == pre_out[b - 1]);
                    assert(lex_le(pre_out[a - 1]@, pre_out[b - 1]@));
                }
            }
            lemma_insert_multiset(pre_out, p as int, x);
            assert(input@.subrange(0, i + 1) =~= input@.subrange(0, i as int).push(input@[i as int]));
            assert(input@.subrange(0, i as int).push(input@[i as int]).to_multiset()
                =~= input@.subrange(0, i as int).to_multiset().insert(input@[i as int]));
        }
        i += 1;
    }
    proof {
        assert(input@.subrange(0, input@.len() as int) =~= input@);
    }
    out
}

/// `map_values` commutes with pushing one element.
proof fn lemma_map_values_push<A, B>(s: Seq<A>, f: spec_fn(A) -> B, x: A)
    ensures
        s.push(x).map_values(f) == s.map_values(f).push(f(x)),
{
    assert(s.push(x).map_values(f) =~= s.map_values(f).push(f(x)));
}

/// The character sequences of a list of paths.
pub open spec fn path_views(v: Seq<String>) -> Seq<Seq<char>> {
    v.map_values(|s: String| s@)
}

/// A sorted path list is determined, character for character, by which
/// paths it holds: two sorted lists with the same paths are the same list.
/// With the contract of `list_images`, this makes the scanner's output
/// deterministic given a folder's contents.
pub proof fn lemma_sorted_paths_unique(v1: Seq<String>, v2: Seq<String>)
    requires
        paths_sorted(v1),
        paths_sorted(v2),
        v1.to_multiset() == v2.to_multiset(),
    ensures
        path_views(v1) == path_views(v2),
    decreases v1.len(),
{
    broadcast use vstd::seq_lib::group_to_multiset_ensures;
    broadcast use vstd::multiset::group_multiset_axioms;

    if v1.len() == 0 {
        assert(v2.to_multiset().len() == 0);
        assert(v2.len() == 0);
        assert(path_views(v1) =~= path_views(v2));
    } else {
        assert(v1.to_multiset().len() == v1.len());
        assert(v2.to_multiset().len() == v2.len());
        assert(v2.len() == v1.len());
        let x = v1[0];
        assert(v1.contains(x));
        assert(v2.to_multiset().count(x) > 0);
        assert(v2.contains(x));
        let j = choose|j: int| 0 <= j < v2.len() && v2[j] == x;
        let y = v2[0];
        assert(v1.to_multiset().count(y) > 0);
        assert(v1.contains(y));
        let i = choose|i: int| 0 <= i < v1.len() && v1[i] == y;
        assert(lex_le(y@, x@)) by {
            if j > 0 {
                assert(lex_le(v2[0]@, v2[j]@));
            } else {
                lemma_lex_le_refl(x@);
            }
        }
        assert(lex_le(x@, y@)) by {
            if i > 0 {
                assert(lex_le(v1[0]@, v1[i]@));
            } else {
                lemma_lex_le_refl(x@);
            }
        }
        lemma_lex_le_antisymmetric(x@, y@);
        assert(x@ == y@);
        // Every path up to position j of v2 reads the same as x.
        assert forall|k: int| 0 <= k <= j implies v2[k]@ == x@ by {
            if 0 < k && k < j {
                assert(lex_le(v2[0]@, v2[k]@));
                assert(lex_le(v2[k]@, v2[j]@));
                lemma_lex_le_antisymmetric(v2[k]@, x@);
            }
        }
        let t1 = v1.remove(0);
        let t2 = v2.remove(j);
        v1.remove_ensures(0);
        v2.remove_ensures(j);
        assert(t1.to_multiset() =~= v1.to_multiset().remove(x));
        assert(t2.to_multiset() =~= v2.to_multiset().remove(x));
        assert(paths_sorted(t1)) by {
            assert forall|a: int, b: int| 0 <= a < b < t1.len() implies lex_le(
                t1[a]@,
                t1[b]@,
            ) by {
                assert(t1[a] == v1[a + 1]);
                assert(t1[b] == v1[b + 1]);
                assert(lex_le(v1[a + 1]@, v1[b + 1]@));
            }
        }
        assert(paths_sorted(t2)) by {
            assert forall|a: int, b: int| 0 <= a < b < t2.len() implies lex_le(
                t2[a]@,
                t2[b]@,
            ) by {
                let aa = if a < j {
                    a
                } else {
                    a + 1
                };
                let bb = if b < j {
                    b
                } else {
                    b + 1
                };
                assert(t2[a] == v2[aa]);
                assert(t2[b] == v2[bb]);
                assert(lex_le(v2[aa]@, v2[bb]@));
            }
        }
        lemma_sorted_paths_unique(t1, t2);
        assert forall|k: int| 0 <= k < v1.len() implies v1[k]@ == v2[k]@ by {
            if k > 0 {
                assert(v1[k] == t1[k - 1]);
                assert(path_views(t1)[k - 1] == path_views(t2)[k - 1]);
                assert(t1[k - 1]@ == t2[k - 1]@);
                if k - 1 < j {
                    assert(t2[k - 1] == v2[k - 1]);
                    assert(v2[k - 1]@ == x@);
                    assert(v2[k]@ == x@);
                } else {
                    assert(t2[k - 1] == v2[k]);
                }
            }
        }
        assert(path_views(v1) =~= path_views(v2));
    }
}

/// Lists the image files of a folder, given what the host found there.
///
/// On a listing, the result holds exactly the paths of the regular-file
/// entries whose extension is in the image set, sorted in ascending
/// lexicographic order.  The other snapshot shapes map to the matching
/// errors, carrying the folder path.
pub fn list_images(folder_path: &str, snapshot: &FolderSnapshot) -> (r: Result<
    Vec<String>,
    CoreError,
>)
    ensures
        match snapshot {
            FolderSnapshot::Missing => r matches Err(CoreError::NotFound { path }) && path@
                == folder_path@,
            FolderSnapshot::NotDirectory => r matches Err(CoreError::NotADirectory { path })
                && path@ == folder_path@,
            FolderSnapshot::Unreadable { cause } => r matches Err(
                CoreError::IoError { operation, path, cause: c },
            ) && operation@ == "read directory"@ && path@ == folder_path@ && c@ == cause@,
            FolderSnapshot::Listed { entries } => r matches Ok(v) && paths_sorted(v@)
                && v@.to_multiset() == eligible_paths(entries@).to_multiset(),
        },
{
    match snapshot {
        FolderSnapshot::Missing => Err(
            CoreError::NotFound { path: String::from_str(folder_path) },
        ),
        FolderSnapshot::NotDirectory => Err(
            CoreError::NotADirectory { path: String::from_str(folder_path) },
        ),
        FolderSnapshot::Unreadable { cause } => Err(
            CoreError::IoError {
                operation: String::from_str("read directory"),
                path: String::from_str(folder_path),
                cause: cause.clone(),
            },
        ),
        FolderSnapshot::Listed { entries } => {
            let mut picked: Vec<String> = Vec::new();
            let mut i: usize = 0;
            proof {
                assert(entries@.subrange(0, 0) =~= Seq::<DirEntry>::empty());
                assert(eligible_paths(entries@.subrange(0, 0)) =~= Seq::<String>::empty()) by {
                    reveal(Seq::filter);
                }
            }
            while i < entries.len()
                invariant
                    i <= entries@.len(),
                    picked@ == eligible_paths(entries@.subrange(0, i as int)),
                decreases entries@.len() - i,
            {
                let e = &entries[i];
                let keep = if e.is_file {
                    match extension_str(e.path.as_str()) {
                        Option::Some(ext) => is_image_extension(ext.as_str()),
                        Option::None => false,
                    }
                } else {
                    false
                };
                proof {
                    assert(keep == is_eligible(entries@[i as int]));
                }
                if keep {
                    picked.push(e.path.clone());
                }
                proof {
                    let prefix = entries@.subrange(0, i as int);
                    let ee = entries@[i as int];
                    assert(entries@.subrange(0, i + 1) =~= prefix.push(ee));
                    prefix.lemma_filter_push(ee, eligible_pred());
                    if keep {
                        lemma_map_values_push(
                            prefix.filter(eligible_pred()),
                            |en: DirEntry| en.path,
                            ee,
                        );
                    }
                }
                i += 1;
            }
            proof {
                assert(entries@.subrange(0, entries@.len() as int) =~= entries@);
            }
            let sorted = sort_paths(picked);
            Ok(sorted)
        },
    }
}

} // verus!
