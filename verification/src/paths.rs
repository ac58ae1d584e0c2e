//! Path-string helpers: file-name and extension extraction, case-insensitive
//! comparison, and the lexicographic order paths are sorted in.

use vstd::prelude::*;

verus! {

/// The suffix of `s` after the last occurrence of `c`; the whole of `s`
/// when `c` does not occur.
pub open spec fn after_last(s: Seq<char>, c: char) -> Seq<char>
    decreases s.len(),
{
    if s.len() == 0 {
        Seq::empty()
    } else if s.last() == c {
        Seq::empty()
    } else {
        after_last(s.drop_last(), c).push(s.last())
    }
}

/// `after_last` picks exactly the suffix that starts right after the last
/// occurrence of `c` (at `k - 1`), or the whole sequence when `k == 0` and
/// `c` does not occur.
pub proof fn lemma_after_last_subrange(s: Seq<char>, c: char, k: int)
    requires
        0 <= k <= s.len(),
        k > 0 ==> s[k - 1] == c,
        forall|j: int| k <= j < s.len() ==> s[j] != c,
    ensures
        after_last(s, c) == s.subrange(k, s.len() as int),
    decreases s.len(),
{
    if k == s.len() {
        assert(s.subrange(k, s.len() as int) =~= Seq::<char>::empty());
    } else {
        assert(s.last() != c);
        lemma_after_last_subrange(s.drop_last(), c, k);
        assert(s.drop_last().subrange(k, s.len() - 1).push(s.last()) =~= s.subrange(
            k,
            s.len() as int,
        ));
    }
}

/// The file-name component of a path: everything after the last `/`.
pub open spec fn file_name_of(p: Seq<char>) -> Seq<char> {
    after_last(p, '/')
}

/// The extension of a path: the text after the last `.` of its file-name
/// component, or nothing when that component holds no `.`.
pub open spec fn extension_of(p: Seq<char>) -> Option<Seq<char>> {
    let name = file_name_of(p);
    if name.contains('.') {
        Option::Some(after_last(name, '.'))
    } else {
        Option::None
    }
}

/// The code point of `c`, shifted to lower case when `c` is an ASCII
/// capital letter.
pub open spec fn lower_code(c: char) -> int {
    if 65 <= c as u32 && c as u32 <= 90 {
        c as int + 32
    } else {
        c as int
    }
}

/// Character-wise ASCII-case-insensitive equality.
pub open spec fn eq_ignore_ascii_case(a: Seq<char>, b: Seq<char>) -> bool {
    a.len() == b.len() && forall|i: int| 0 <= i < a.len() ==> lower_code(a[i]) == lower_code(b[i])
}

/// Lexicographic code-point order on character sequences: the order Rust
/// path strings sort in.
pub open spec fn lex_le(a: Seq<char>, b: Seq<char>) -> bool
    decreases a.len(),
{
    if a.len() == 0 {
        true
    } else if b.len() == 0 {
        false
    } else if (a[0] as u32) < (b[0] as u32) {
        true
    } else if (a[0] as u32) > (b[0] as u32) {
        false
    } else {
        lex_le(a.subrange(1, a.len() as int), b.subrange(1, b.len() as int))
    }
}

/// Any two character sequences are ordered one way or the other.
pub proof fn lemma_lex_le_total(a: Seq<char>, b: Seq<char>)
    ensures
        lex_le(a, b) || lex_le(b, a),
    decreases a.len(),
{
    if a.len() > 0 && b.len() > 0 && (a[0] as u32) == (b[0] as u32) {
        lemma_lex_le_total(a.subrange(1, a.len() as int), b.subrange(1, b.len() as int));
    }
}

/// Every character sequence is ordered below itself.
pub proof fn lemma_lex_le_refl(a: Seq<char>)
    ensures
        lex_le(a, a),
    decreases a.len(),
{
    if a.len() > 0 {
        lemma_lex_le_refl(a.subrange(1, a.len() as int));
    }
}

/// Two character sequences ordered below each other are equal.
pub proof fn lemma_lex_le_antisymmetric(a: Seq<char>, b: Seq<char>)
    requires
        lex_le(a, b),
        lex_le(b, a),
    ensures
        a == b,
    decreases a.len(),
{
    if a.len() == 0 {
        assert(b.len() == 0);
        assert(a =~= b);
    } else {
        assert(b.len() > 0);
        let ta = a.subrange(1, a.len() as int);
        let tb = b.subrange(1, b.len() as int);
        lemma_lex_le_antisymmetric(ta, tb);
        assert(a[0] == b[0]) by {
            vstd::utf8::char_u32_cast(a[0], a[0] as u32);
            vstd::utf8::char_u32_cast(b[0], a[0] as u32);
        }
        assert(a =~= b) by {
            assert(ta.len() == tb.len());
            assert(a.len() == b.len());
            assert forall|i: int| 0 <= i < a.len() implies a[i] == b[i] by {
                if i > 0 {
                    assert(a[i] == ta[i - 1]);
                    assert(b[i] == tb[i - 1]);
                }
            }
        }
    }
}

/// The lexicographic order is transitive.
pub proof fn lemma_lex_le_trans(a: Seq<char>, b: Seq<char>, c: Seq<char>)
    requires
        lex_le(a, b),
        lex_le(b, c),
    ensures
        lex_le(a, c),
    decreases a.len(),
{
    if a.len() > 0 && b.len() > 0 && c.len() > 0 {
        if (a[0] as u32) == (b[0] as u32) && (b[0] as u32) == (c[0] as u32) {
            lemma_lex_le_trans(
                a.subrange(1, a.len() as int),
                b.subrange(1, b.len() as int),
                c.subrange(1, c.len() as int),
            );
        }
    }
}

/// Compares two strings in lexicographic code-point order.
pub fn str_le(a: &str, b: &str) -> (r: bool)
    ensures
        r == lex_le(a@, b@),
    decreases a@.len(),
{
    let a_len = a.unicode_len();
    let b_len = b.unicode_len();
    if a_len == 0 {
        true
    } else if b_len == 0 {
        false
    } else {
        let ca = a.get_char(0);
        let cb = b.get_char(0);
        if (ca as u32) < (cb as u32) {
            true
        } else if (ca as u32) > (cb as u32) {
            false
        } else {
            str_le(a.substring_char(1, a_len), b.substring_char(1, b_len))
        }
    }
}

/// One left-to-right scan of a path.  Returns the index right after the
/// last `/` (0 when there is none) and the position of the last `.` of the
/// file-name component, when there is one.
pub(crate) fn scan_path(p: &str) -> (r: (usize, Option<usize>))
    ensures
        r.0 <= p@.len(),
        r.0 > 0 ==> p@[r.0 as int - 1] == '/',
        forall|j: int| r.0 <= j < p@.len() ==> p@[j] != '/',
        match r.1 {
            Option::Some(d) => r.0 <= d < p@.len() && p@[d as int] == '.' && forall|j: int|
                d < j < p@.len() ==> p@[j] != '.',
            Option::None => forall|j: int| r.0 <= j < p@.len() ==> p@[j] != '.',
        },
{
    let len = p.unicode_len();
    let mut name_start: usize = 0;
    let mut last_dot: Option<usize> = Option::None;
    let mut i: usize = 0;
    while i < len
        invariant
            len == p@.len(),
            i <= len,
            name_start <= i,
            name_start > 0 ==> p@[name_start as int - 1] == '/',
            forall|j: int| name_start <= j < i ==> p@[j] != '/',
            match last_dot {
                Option::Some(d) => name_start <= d < i && p@[d as int] == '.' && forall|j: int|
                    d < j < i ==> p@[j] != '.',
                Option::None => forall|j: int| name_start <= j < i ==> p@[j] != '.',
            },
        decreases len - i,
    {
        let c = p.get_char(i);
        if c == '/' {
            name_start = i + 1;
            last_dot = Option::None;
        } else if c == '.' {
            last_dot = Option::Some(i);
        }
        i += 1;
    }
    (name_start, last_dot)
}

/// The extension of a path string, as `extension_of` describes it.
pub fn extension_str(p: &str) -> (r: Option<String>)
    ensures
        (r is Some) == (extension_of(p@) is Some),
        r matches Option::Some(e) ==> extension_of(p@) == Option::Some(e@),
{
    let len = p.unicode_len();
    let (name_start, last_dot) = scan_path(p);
    proof {
        lemma_after_last_subrange(p@, '/', name_start as int);
        assert(file_name_of(p@) == p@.subrange(name_start as int, p@.len() as int));
    }
    let ghost name = file_name_of(p@);
    match last_dot {
        Option::Some(d) => {
            let ext = p.substring_char(d + 1, len);
            proof {
                let k = d + 1 - name_start;
                assert(name[k - 1] == p@[d as int]);
                assert forall|j: int| k <= j < name.len() implies name[j] != '.' by {
                    assert(name[j] == p@[name_start + j]);
                }
                assert(name.contains('.')) by {
                    assert(name[d - name_start] == '.');
                }
                lemma_after_last_subrange(name, '.', k);
                assert(name.subrange(k, name.len() as int) =~= p@.subrange(
                    d + 1,
                    p@.len() as int,
                ));
            }
            Option::Some(String::from_str(ext))
        },
        Option::None => {
            proof {
                if name.contains('.') {
                    let j = choose|j: int| 0 <= j < name.len() && name[j] == '.';
                    assert(p@[name_start + j] == '.');
                }
            }
            Option::None
        },
    }
}

} // verus!
