//! File-level decisions of the command layer: listing order, temporary
//! file cleanup, what the watcher tracks, and the cleaning of persisted
//! text.

use crate::bytes::{ends_with_seq, lower_seq, slice_copy, starts_with_seq, str_bytes};
use vstd::prelude::*;
use vstd::string::StringSliceAdditionalSpecFns;

verus! {

broadcast use vstd::seq_lib::group_to_multiset_ensures;

/// One listed file or directory, with its children when it is one.
#[derive(Debug, PartialEq, Eq)]
pub struct FileEntry {
    pub name: Vec<u8>,
    pub path: Vec<u8>,
    pub is_dir: bool,
    pub children: Option<Vec<FileEntry>>,
}

/// Where the compiler binary was looked for and what came of it.
#[derive(Debug, Clone, PartialEq, Eq)]
pub struct TypstDiagnostics {
    pub detected_binary: Option<Vec<u8>>,
    pub attempted_binary_paths: Vec<Vec<u8>>,
    pub error: Option<Vec<u8>>,
}

/// The raw preference and template files, for inspection.
#[derive(Debug, Clone, PartialEq, Eq)]
pub struct RuntimeFilesResponse {
    pub prefs_json_raw: Option<Vec<u8>>,
    pub template_raw: Option<Vec<u8>>,
    pub prefs_path: Vec<u8>,
    pub template_path: Vec<u8>,
}

/// What a temporary-file cleanup removed.
#[derive(Debug, Clone, Copy, PartialEq, Eq, Structural)]
pub struct CleanupResponse {
    pub files_removed: usize,
    pub total_space_freed: u64,
}

/// Lexicographic order on byte strings.
pub open spec fn lex_le(a: Seq<u8>, b: Seq<u8>) -> bool
    decreases a.len(),
{
    if a.len() == 0 {
        true
    } else if b.len() == 0 {
        false
    } else if a[0] < b[0] {
        true
    } else if a[0] > b[0] {
        false
    } else {
        lex_le(a.drop_first(), b.drop_first())
    }
}

/// Compares two byte strings lexicographically.
pub fn lex_le_bytes(a: &[u8], b: &[u8]) -> (r: bool)
    ensures
        r == lex_le(a@, b@),
{
    let an = a.len();
    let bn = b.len();
    let mut i: usize = 0;
    assert(a@.skip(0) =~= a@);
    assert(b@.skip(0) =~= b@);
    while i < an && i < bn
        invariant
            0 <= i,
            i <= an,
            i <= bn,
            an == a@.len(),
            bn == b@.len(),
            lex_le(a@.skip(i as int), b@.skip(i as int)) == lex_le(a@, b@),
            forall|k: int| 0 <= k < i ==> a@[k] == b@[k],
        decreases an - i,
    {
        proof {
            assert(a@.skip(i as int)[0] == a@[i as int]);
            assert(b@.skip(i as int)[0] == b@[i as int]);
            assert(a@.skip(i as int).drop_first() =~= a@.skip(i + 1));
            assert(b@.skip(i as int).drop_first() =~= b@.skip(i + 1));
        }
        if a[i] < b[i] {
            return true;
        }
        if a[i] > b[i] {
            return false;
        }
        i += 1;
    }
    proof {
        if i >= an {
            assert(a@.skip(i as int).len() == 0);
        } else {
            assert(b@.skip(i as int).len() == 0);
            assert(a@.skip(i as int).len() > 0);
        }
    }
    i >= an
}

/// The listing order: directories first, then case-insensitive name
/// order.
pub open spec fn entry_le(a: FileEntry, b: FileEntry) -> bool {
    if a.is_dir != b.is_dir {
        a.is_dir
    } else {
        lex_le(lower_seq(a.name@), lower_seq(b.name@))
    }
}

/// Whether `a` sorts at or before `b` in a listing.
pub fn entry_before(a: &FileEntry, b: &FileEntry) -> (r: bool)
    ensures
        r == entry_le(*a, *b),
{
    if a.is_dir != b.is_dir {
        a.is_dir
    } else {
        let la = crate::bytes::to_lower(a.name.as_slice());
        let lb = crate::bytes::to_lower(b.name.as_slice());
        lex_le_bytes(la.as_slice(), lb.as_slice())
    }
}

/// Selection sort of a listing: directories first, then name order; the
/// multiset of entries is kept.
pub fn sort_entries(v: Vec<FileEntry>) -> (r: Vec<FileEntry>)
    ensures
        r@.len() == v@.len(),
        r@.to_multiset() == v@.to_multiset(),
        forall|i: int, j: int| 0 <= i < j < r@.len() ==> entry_le(#[trigger] r@[i], #[trigger] r@[j]),
{
    let ghost vm = v@.to_multiset();
    let mut out: Vec<FileEntry> = Vec::new();
    let mut rest = v;
    while rest.len() > 0
        invariant
            forall|i: int, j: int|
                0 <= i < j < out@.len() ==> entry_le(#[trigger] out@[i], #[trigger] out@[j]),
            out@.to_multiset().add(rest@.to_multiset()) == vm,
            out@.len() + rest@.len() == vm.len(),
            forall|i: int, j: int|
                0 <= i < out@.len() && 0 <= j < rest@.len() ==> entry_le(
                    #[trigger] out@[i],
                    #[trigger] rest@[j],
                ),
        decreases rest@.len(),
    {
        let rlen = rest.len();
        let mut min_i: usize = 0;
        let mut t: usize = 1;
        proof {
            lemma_entry_le_refl(rest@[0]);
        }
        while t < rlen
            invariant
                0 <= min_i < t <= rlen,
                rlen == rest@.len(),
                forall|k: int| 0 <= k < t ==> entry_le(rest@[min_i as int], #[trigger] rest@[k]),
            decreases rlen - t,
        {
            if !entry_before(&rest[min_i], &rest[t]) {
                proof {
                    lemma_entry_le_total(rest@[min_i as int], rest@[t as int]);
                    lemma_entry_le_refl(rest@[t as int]);
                    assert forall|k: int| 0 <= k < t + 1 implies entry_le(
                        rest@[t as int],
                        #[trigger] rest@[k],
                    ) by {
                        if k < t {
                            lemma_entry_le_trans(rest@[t as int], rest@[min_i as int], rest@[k]);
                        }
                    }
                }
                min_i = t;
            } else {
                proof {
                    assert forall|k: int| 0 <= k < t + 1 implies entry_le(
                        rest@[min_i as int],
                        #[trigger] rest@[k],
                    ) by {}
                }
            }
            t += 1;
        }
        let ghost old_rest = rest@;
        let picked = rest.remove(min_i);
        proof {
            assert(old_rest.remove(min_i as int).to_multiset() =~= old_rest.to_multiset().remove(
                picked,
            ));
            assert(out@.push(picked).to_multiset() =~= out@.to_multiset().insert(picked));
            assert(old_rest.to_multiset().count(picked) > 0);
            assert(out@.to_multiset().insert(picked).add(
                old_rest.to_multiset().remove(picked),
            ) =~= out@.to_multiset().add(old_rest.to_multiset()));
            assert(forall|j: int|
                0 <= j < rest@.len() ==> #[trigger] rest@[j] == if j < min_i {
                    old_rest[j]
                } else {
                    old_rest[j + 1]
                });
        }
        out.push(picked);
        assert(forall|i: int, j: int|
            0 <= i < j < out@.len() ==> entry_le(#[trigger] out@[i], #[trigger] out@[j]));
    }
    assert(rest@.to_multiset() =~= vstd::multiset::Multiset::empty());
    assert(out@.to_multiset().add(vstd::multiset::Multiset::empty()) =~= out@.to_multiset());
    out
}

proof fn lemma_lex_le_refl(a: Seq<u8>)
    ensures
        lex_le(a, a),
    decreases a.len(),
{
    if a.len() > 0 {
        lemma_lex_le_refl(a.drop_first());
    }
}

proof fn lemma_entry_le_refl(a: FileEntry)
    ensures
        entry_le(a, a),
{
    lemma_lex_le_refl(lower_seq(a.name@));
}

proof fn lemma_lex_le_total(a: Seq<u8>, b: Seq<u8>)
    ensures
        lex_le(a, b) || lex_le(b, a),
    decreases a.len(),
{
    if a.len() > 0 && b.len() > 0 && a[0] == b[0] {
        lemma_lex_le_total(a.drop_first(), b.drop_first());
    }
}

proof fn lemma_lex_le_trans(a: Seq<u8>, b: Seq<u8>, c: Seq<u8>)
    requires
        lex_le(a, b),
        lex_le(b, c),
    ensures
        lex_le(a, c),
    decreases a.len(),
{
    if a.len() > 0 && b.len() > 0 && c.len() > 0 && a[0] == b[0] && b[0] == c[0] {
        lemma_lex_le_trans(a.drop_first(), b.drop_first(), c.drop_first());
    }
}

proof fn lemma_entry_le_total(a: FileEntry, b: FileEntry)
    ensures
        entry_le(a, b) || entry_le(b, a),
{
    if a.is_dir == b.is_dir {
        lemma_lex_le_total(lower_seq(a.name@), lower_seq(b.name@));
    }
}

proof fn lemma_entry_le_trans(a: FileEntry, b: FileEntry, c: FileEntry)
    requires
        entry_le(a, b),
        entry_le(b, c),
    ensures
        entry_le(a, c),
{
    if a.is_dir == b.is_dir && b.is_dir == c.is_dir {
        lemma_lex_le_trans(lower_seq(a.name@), lower_seq(b.name@), lower_seq(c.name@));
    }
}

/// A temporary render output: `temp_*.pdf`.
pub fn is_temp_pdf_name(name: &[u8]) -> (r: bool)
    ensures
        r == (starts_with_seq(name@, "temp_".spec_bytes()) && ends_with_seq(
            name@,
            ".pdf".spec_bytes(),
        )),
{
    crate::bytes::starts_with_bytes(name, str_bytes("temp_").as_slice())
        && crate::bytes::ends_with_bytes(name, str_bytes(".pdf").as_slice())
}

/// A cached render artifact: `cached_*`.
pub fn is_cached_name(name: &[u8]) -> (r: bool)
    ensures
        r == starts_with_seq(name@, "cached_".spec_bytes()),
{
    crate::bytes::starts_with_bytes(name, str_bytes("cached_").as_slice())
}

/// How long a temporary output may linger, in seconds.
pub const TEMP_PDF_MAX_AGE_S: u64 = 1800;

/// Whether the `index`-th newest temporary output goes: beyond the keep
/// count, or older than the age bound.
pub fn should_remove_temp(index: usize, keep_count: usize, age_s: u64) -> (r: bool)
    ensures
        r == (index >= keep_count || age_s > TEMP_PDF_MAX_AGE_S),
{
    index >= keep_count || age_s > TEMP_PDF_MAX_AGE_S
}

/// What the watcher tracks: `md` files (case-insensitively) outside the
/// build directory.
pub fn is_watchable_file(path: &[u8]) -> (r: bool)
    ensures
        r == (crate::pipeline::path_ext_lower(path@) == "md".spec_bytes()
            && !crate::bytes::contains_seq(path@, ".build".spec_bytes())),
{
    let fname = crate::rewrite::file_name(path);
    let sp = crate::naming::find_stem_split(fname.as_slice());
    let ext = if sp > 0 && sp < fname.len() {
        slice_copy(fname.as_slice(), sp + 1, fname.len())
    } else {
        Vec::new()
    };
    assert(ext@ == crate::naming::ext_of(fname@));
    let l = crate::bytes::to_lower(ext.as_slice());
    crate::admonitions::eq_bytes(l.as_slice(), str_bytes("md").as_slice())
        && !crate::bytes::contains_bytes(path, str_bytes(".build").as_slice())
}

} // verus!
