//! Output path normalization.
//!
//! The output image is always written with the canonical `png` extension:
//! a path without an extension gets `.png` appended, a path whose extension
//! is not `png` (compared ASCII case-insensitively) keeps its name and gets
//! `.png` appended after it, and a path already ending in `png` is kept.
//!
//! File names follow the usual path reading: trailing `/` separators are
//! ignored, the file name is the final segment, and a path whose final
//! segment is empty, `.`, or `..` names no file and is left unchanged. The
//! extension is the part after the last dot of the file name; a name without
//! a dot, or with its only dot at the front (a hidden file), has none.
//! Normalization is idempotent: see `lemma_prepare_output_path_idempotent`.

use vstd::prelude::*;
use vstd::slice::{slice_subrange, slice_index_get};
use vstd::string::StringExecFns;
use crate::chars::{lower_spec, lower_char, chars_of, lower_ex, chars_eq_str, chars_to_string};

verus! {

/// `p` without its trailing `/` separators.
pub open spec fn strip_trailing_slashes(p: Seq<char>) -> Seq<char>
    decreases p.len(),
{
    if p.len() > 0 && p[p.len() - 1] == '/' {
        strip_trailing_slashes(p.subrange(0, p.len() - 1))
    } else {
        p
    }
}

/// Index of the first character of the final path segment: everything after
/// the last `/`.
pub open spec fn file_name_start(p: Seq<char>) -> int
    decreases p.len(),
{
    if p.len() == 0 {
        0
    } else if p[p.len() - 1] == '/' {
        p.len() as int
    } else {
        file_name_start(p.subrange(0, p.len() - 1))
    }
}

/// The file name of `p`: its final segment, with trailing separators
/// ignored. Empty when the path names no file.
pub open spec fn file_name_of(p: Seq<char>) -> Seq<char> {
    let s = strip_trailing_slashes(p);
    s.subrange(file_name_start(s), s.len() as int)
}

/// Whether `p` names a file at all: a non-empty final segment that is
/// neither `.` nor `..`.
pub open spec fn has_file_name(p: Seq<char>) -> bool {
    let f = file_name_of(p);
    f.len() > 0 && f != "."@ && f != ".."@
}

/// Index of the last dot of the file name `f`, or -1 if it has none.
pub open spec fn last_dot_pos(f: Seq<char>) -> int
    decreases f.len(),
{
    if f.len() == 0 {
        -1
    } else if f[f.len() - 1] == '.' {
        f.len() - 1
    } else {
        last_dot_pos(f.subrange(0, f.len() - 1))
    }
}

/// Whether the file name `f` has an extension: a dot that is neither absent
/// nor the leading character of a hidden file's name.
pub open spec fn has_extension(f: Seq<char>) -> bool {
    last_dot_pos(f) > 0
}

/// The extension of the file name `f`, the part after its last dot.
pub open spec fn extension_of(f: Seq<char>) -> Seq<char> {
    f.subrange(last_dot_pos(f) + 1, f.len() as int)
}

/// The normalized output path: unchanged when it names no file or when its
/// extension is already `png` in any case; otherwise `.png` is appended to
/// the path with its trailing separators dropped.
pub open spec fn spec_prepare_output_path(p: Seq<char>) -> Seq<char> {
    let f = file_name_of(p);
    if !has_file_name(p) {
        p
    } else if has_extension(f) && lower_spec(extension_of(f)) == "png"@ {
        p
    } else {
        strip_trailing_slashes(p) + ".png"@
    }
}

proof fn lemma_file_name_start_bounds(p: Seq<char>)
    ensures
        0 <= file_name_start(p) <= p.len(),
    decreases p.len(),
{
    if p.len() > 0 && p[p.len() - 1] != '/' {
        lemma_file_name_start_bounds(p.subrange(0, p.len() - 1));
    }
}

proof fn lemma_last_dot_pos_bounds(f: Seq<char>)
    ensures
        -1 <= last_dot_pos(f) < f.len(),
    decreases f.len(),
{
    if f.len() > 0 && f[f.len() - 1] != '.' {
        lemma_last_dot_pos_bounds(f.subrange(0, f.len() - 1));
    }
}

fn strip_trailing_slashes_ex<'a>(p: &'a [char]) -> (r: &'a [char])
    ensures
        r@ == strip_trailing_slashes(p@),
    decreases p@.len(),
{
    if p.len() > 0 && *slice_index_get(p, p.len() - 1) == '/' {
        strip_trailing_slashes_ex(slice_subrange(p, 0, p.len() - 1))
    } else {
        p
    }
}

fn file_name_start_ex(p: &[char]) -> (r: usize)
    ensures
        r == file_name_start(p@),
    decreases p@.len(),
{
    if p.len() == 0 {
        0
    } else if *slice_index_get(p, p.len() - 1) == '/' {
        p.len()
    } else {
        file_name_start_ex(slice_subrange(p, 0, p.len() - 1))
    }
}

fn last_dot_pos_ex(f: &[char]) -> (r: Option<usize>)
    ensures
        match r {
            Some(i) => last_dot_pos(f@) == i,
            None => last_dot_pos(f@) == -1,
        },
    decreases f@.len(),
{
    if f.len() == 0 {
        None
    } else if *slice_index_get(f, f.len() - 1) == '.' {
        Some(f.len() - 1)
    } else {
        last_dot_pos_ex(slice_subrange(f, 0, f.len() - 1))
    }
}

/// The output path with its extension forced to `png`: appended when absent
/// or different, the path kept as it is when already `png` or when it names
/// no file.
pub fn prepare_output_path(path: &str) -> (r: String)
    ensures
        r@ == spec_prepare_output_path(path@),
{
    let cs = chars_of(path);
    let stripped = strip_trailing_slashes_ex(cs.as_slice());
    proof {
        lemma_file_name_start_bounds(stripped@);
    }
    let start = file_name_start_ex(stripped);
    let fname = slice_subrange(stripped, start, stripped.len());
    if fname.len() == 0 || chars_eq_str(fname, ".") || chars_eq_str(fname, "..") {
        return String::from_str(path);
    }
    let keep: bool = match last_dot_pos_ex(fname) {
        Some(i) => {
            proof {
                lemma_last_dot_pos_bounds(fname@);
            }
            if i > 0 {
                let ext = slice_subrange(fname, i + 1, fname.len());
                let low = lower_ex(ext);
                chars_eq_str(low.as_slice(), "png")
            } else {
                false
            }
        },
        None => false,
    };
    if keep {
        String::from_str(path)
    } else {
        let base = vstd::slice::slice_to_vec(stripped);
        chars_to_string(&base).concat(".png")
    }
}

proof fn lemma_file_name_start_append(a: Seq<char>, b: Seq<char>)
    requires
        forall|i: int| 0 <= i < b.len() ==> #[trigger] b[i] != '/',
    ensures
        file_name_start(a + b) == file_name_start(a),
    decreases b.len(),
{
    if b.len() == 0 {
        assert(a + b =~= a);
    } else {
        let b2 = b.subrange(0, b.len() - 1);
        assert((a + b).subrange(0, a.len() + b.len() - 1) =~= a + b2);
        assert((a + b)[(a + b).len() - 1] == b[b.len() - 1]);
        lemma_file_name_start_append(a, b2);
    }
}

/// Normalizing an output path is idempotent: a normalized path normalizes
/// to itself.
pub proof fn lemma_prepare_output_path_idempotent(p: Seq<char>)
    ensures
        spec_prepare_output_path(spec_prepare_output_path(p)) == spec_prepare_output_path(p),
{
    reveal_strlit(".png");
    reveal_strlit("png");
    let q = spec_prepare_output_path(p);
    let f = file_name_of(p);
    if !has_file_name(p) || (has_extension(f) && lower_spec(extension_of(f)) == "png"@) {
        assert(q == p);
    } else {
        let s = strip_trailing_slashes(p);
        let suffix = ".png"@;
        assert(suffix.len() == 4 && suffix[0] == '.' && suffix[1] == 'p' && suffix[2] == 'n'
            && suffix[3] == 'g');
        assert(q == s + suffix);
        // q has no trailing slash, so it is its own stripped form
        assert(q[q.len() - 1] == 'g');
        assert(strip_trailing_slashes(q) == q);
        // the file name of q is the file name of s followed by ".png"
        assert forall|i: int| 0 <= i < suffix.len() implies #[trigger] suffix[i] != '/' by {}
        lemma_file_name_start_append(s, suffix);
        lemma_file_name_start_bounds(s);
        let fq = file_name_of(q);
        assert(fq =~= f + suffix);
        // its last dot is the appended one: the three characters after it
        // are not dots, so the scan from the end stops exactly there
        assert(fq[fq.len() - 1] == 'g' && fq[fq.len() - 2] == 'n' && fq[fq.len() - 3] == 'p'
            && fq[fq.len() - 4] == '.');
        let v3 = fq.subrange(0, fq.len() - 1);
        let v2 = fq.subrange(0, fq.len() - 2);
        let v1 = fq.subrange(0, fq.len() - 3);
        assert(last_dot_pos(fq) == last_dot_pos(v3));
        assert(v3[v3.len() - 1] == 'n');
        assert(v3.subrange(0, v3.len() - 1) =~= v2);
        assert(last_dot_pos(v3) == last_dot_pos(v2));
        assert(v2[v2.len() - 1] == 'p');
        assert(v2.subrange(0, v2.len() - 1) =~= v1);
        assert(last_dot_pos(v2) == last_dot_pos(v1));
        assert(v1[v1.len() - 1] == '.');
        assert(last_dot_pos(v1) == v1.len() - 1);
        assert(last_dot_pos(fq) == fq.len() - 4);
        // f is a real file name, so the dot sits past the front
        assert(f.len() >= 1);
        assert(has_extension(fq));
        // the extension reads exactly "png", already lower case
        let ext = extension_of(fq);
        assert(ext =~= seq!['p', 'n', 'g']);
        assert(lower_char('p') == 'p' && lower_char('n') == 'n' && lower_char('g') == 'g');
        assert(lower_spec(ext) =~= "png"@);
        // so q has a file name and keeps itself unchanged
        assert(fq.len() >= 5);
        assert(fq != "."@ && fq != ".."@) by {
            reveal_strlit(".");
            reveal_strlit("..");
            assert("."@.len() == 1 && ".."@.len() == 2);
        }
        assert(has_file_name(q));
        assert(spec_prepare_output_path(q) == q);
    }
}

} // verus!
