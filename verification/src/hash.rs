//! Content hashing of a package's tracked files.
//!
//! Each tracked file contributes a line holding the digest of its bytes and
//! its path; the lines are ordered by path, joined by newlines, and digested
//! again to give the package digest.  The digest is a function of the file
//! set alone: listing the same files in another order gives the same digest.

use vstd::prelude::*;
use vstd::string::StringExecFns;
use vstd::utf8::encode_utf8;
use crate::text::lex_le;
use crate::text::str_le;
use crate::text::lemma_lex_le_total;
use crate::text::lemma_lex_le_antisymmetric;
use crate::text::lemma_lex_le_transitive;

verus! {

broadcast use {
    vstd::seq_lib::group_to_multiset_ensures,
    vstd::multiset::group_multiset_axioms,
};

/// One tracked file: its path relative to the package directory, with a
/// normalized separator, and its content bytes.
pub struct TrackedFile {
    pub path: String,
    pub content: Vec<u8>,
}

/// Mathematical image of a [`TrackedFile`].
pub ghost struct FileModel {
    pub path: Seq<char>,
    pub content: Seq<u8>,
}

impl View for TrackedFile {
    type V = FileModel;

    open spec fn view(&self) -> FileModel {
        FileModel { path: self.path@, content: self.content@ }
    }
}

impl DeepView for TrackedFile {
    type V = FileModel;

    open spec fn deep_view(&self) -> FileModel {
        self.view()
    }
}

/// The lowercase hexadecimal md5 digest of a byte sequence.  What the
/// digest is on given bytes is left unstated: it depends on the bytes
/// alone, and only the md5 computation itself defines it.
pub uninterp spec fn md5_hex_of(bytes: Seq<u8>) -> Seq<char>;

/// A decimal digit or one of the letters `a` through `f`.
pub open spec fn is_lower_hex_digit(c: char) -> bool {
    (48 <= c as int && c as int <= 57) || (97 <= c as int && c as int <= 102)
}

/// Relies on md5::compute and the md5 crate's LowerHex rendering: the md5
/// digest of the bytes alone, a 16-byte value written as two lowercase
/// hexadecimal digits per byte, 32 characters in all.
#[verifier::external_body]
fn md5_hex(bytes: &[u8]) -> (r: String)
    ensures
        r@ == md5_hex_of(bytes@),
        r@.len() == 32,
        forall|k: int| 0 <= k < r@.len() ==> is_lower_hex_digit(#[trigger] r@[k]),
{
    let digest = md5::compute(bytes);
    format!("{:x}", digest)
}

/// The files stand in ascending path order.
pub open spec fn sorted_by_path(s: Seq<FileModel>) -> bool {
    forall|i: int, j: int| 0 <= i < j < s.len() ==> lex_le(#[trigger] s[i].path, #[trigger] s[j].path)
}

/// No two files share a path.
pub open spec fn distinct_paths(s: Seq<FileModel>) -> bool {
    forall|i: int, j: int| 0 <= i < j < s.len() ==> (#[trigger] s[i].path) != (#[trigger] s[j].path)
}

/// Where insertion places a file: after every file whose path does not
/// exceed its own, so files with equal paths keep their arrival order.
pub open spec fn spec_insert_file(f: FileModel, s: Seq<FileModel>) -> Seq<FileModel>
    decreases s.len(),
{
    if s.len() == 0 {
        seq![f]
    } else if !lex_le(s[0].path, f.path) {
        seq![f] + s
    } else {
        seq![s[0]] + spec_insert_file(f, s.drop_first())
    }
}

/// The files in ascending path order, by insertion from the front.
pub open spec fn spec_sort_files(s: Seq<FileModel>) -> Seq<FileModel>
    decreases s.len(),
{
    if s.len() == 0 {
        Seq::<FileModel>::empty()
    } else {
        spec_insert_file(s.last(), spec_sort_files(s.drop_last()))
    }
}

/// The line a file contributes to the detail: its content digest, a
/// separator, and its path.
pub open spec fn spec_file_line(f: FileModel) -> Seq<char> {
    md5_hex_of(f.content) + seq!['-'] + f.path
}

/// The per-file detail of a file list: one line per file, joined by
/// newlines.
pub open spec fn spec_detail(s: Seq<FileModel>) -> Seq<char>
    decreases s.len(),
{
    if s.len() == 0 {
        Seq::<char>::empty()
    } else if s.len() == 1 {
        spec_file_line(s[0])
    } else {
        spec_detail(s.drop_last()) + seq!['\n'] + spec_file_line(s.last())
    }
}

/// The digest of a package's tracked files: the md5 digest of the per-file
/// detail of the files in path order.
pub open spec fn spec_package_digest(files: Seq<FileModel>) -> Seq<char> {
    md5_hex_of(encode_utf8(spec_detail(spec_sort_files(files))))
}

/// Inserting adds the one file to the multiset and keeps the length.
proof fn lemma_insert_file_multiset(f: FileModel, s: Seq<FileModel>)
    ensures
        spec_insert_file(f, s).to_multiset() == s.to_multiset().insert(f),
        spec_insert_file(f, s).len() == s.len() + 1,
    decreases s.len(),
{
    let r = spec_insert_file(f, s);
    if s.len() == 0 {
        assert(seq![f] =~= Seq::<FileModel>::empty().push(f));
        assert(Seq::<FileModel>::empty().push(f).to_multiset() =~= s.to_multiset().insert(f));
    } else if !lex_le(s[0].path, f.path) {
        assert(r =~= s.insert(0, f));
        vstd::seq_lib::to_multiset_insert(s, 0, f);
    } else {
        lemma_insert_file_multiset(f, s.drop_first());
        assert(r =~= spec_insert_file(f, s.drop_first()).insert(0, s[0]));
        vstd::seq_lib::to_multiset_insert(spec_insert_file(f, s.drop_first()), 0, s[0]);
        assert(s =~= s.drop_first().insert(0, s[0]));
        vstd::seq_lib::to_multiset_insert(s.drop_first(), 0, s[0]);
        assert(r.to_multiset() =~= s.to_multiset().insert(f));
    }
}

/// Inserting into a path-ordered list keeps it path-ordered.
proof fn lemma_insert_file_sorted(f: FileModel, s: Seq<FileModel>)
    requires
        sorted_by_path(s),
    ensures
        sorted_by_path(spec_insert_file(f, s)),
    decreases s.len(),
{
    let r = spec_insert_file(f, s);
    if s.len() == 0 {
    } else if !lex_le(s[0].path, f.path) {
        lemma_lex_le_total(s[0].path, f.path);
        assert forall|i: int, j: int| 0 <= i < j < r.len() implies lex_le(
            #[trigger] r[i].path,
            #[trigger] r[j].path,
        ) by {
            if i == 0 {
                assert(r[j] == s[j - 1]);
                if j > 1 {
                    lemma_lex_le_transitive(f.path, s[0].path, s[j - 1].path);
                }
            }
        }
    } else {
        lemma_insert_file_sorted(f, s.drop_first());
        let t = spec_insert_file(f, s.drop_first());
        lemma_insert_file_multiset(f, s.drop_first());
        assert forall|i: int, j: int| 0 <= i < j < r.len() implies lex_le(
            #[trigger] r[i].path,
            #[trigger] r[j].path,
        ) by {
            if i == 0 {
                // The head is below everything inserted behind it.
                assert(r[j] == t[j - 1]);
                assert(t.to_multiset().contains(t[j - 1]));
                if t[j - 1] == f {
                    assert(lex_le(s[0].path, f.path));
                } else {
                    assert(s.drop_first().to_multiset().contains(t[j - 1]));
                    let k = choose|k: int|
                        0 <= k < s.drop_first().len() && s.drop_first()[k] == t[j - 1];
                    assert(s[k + 1] == t[j - 1]);
                    assert(lex_le(s[0].path, s[k + 1].path));
                }
            } else {
                assert(r[i] == t[i - 1] && r[j] == t[j - 1]);
            }
        }
    }
}

/// Sorting keeps the multiset of files and orders them by path.
pub proof fn lemma_sort_files_sorted(s: Seq<FileModel>)
    ensures
        sorted_by_path(spec_sort_files(s)),
        spec_sort_files(s).to_multiset() == s.to_multiset(),
        spec_sort_files(s).len() == s.len(),
    decreases s.len(),
{
    if s.len() > 0 {
        lemma_sort_files_sorted(s.drop_last());
        lemma_insert_file_sorted(s.last(), spec_sort_files(s.drop_last()));
        lemma_insert_file_multiset(s.last(), spec_sort_files(s.drop_last()));
        assert(s =~= s.drop_last().push(s.last()));
        assert(s.drop_last().push(s.last()).to_multiset() == s.drop_last().to_multiset().insert(
            s.last(),
        ));
    }
}

/// Two path-ordered lists with the same files are identical, when the
/// first repeats no path.
proof fn lemma_sorted_multiset_unique(x: Seq<FileModel>, y: Seq<FileModel>)
    requires
        sorted_by_path(x),
        sorted_by_path(y),
        distinct_paths(x),
        x.to_multiset() == y.to_multiset(),
    ensures
        x == y,
    decreases x.len(),
{
    vstd::seq_lib::to_multiset_len(x);
    vstd::seq_lib::to_multiset_len(y);
    if x.len() == 0 {
        assert(x =~= y);
    } else {
        assert(y.to_multiset().contains(x[0]));
        assert(y.contains(x[0]));
        let j = choose|j: int| 0 <= j < y.len() && y[j] == x[0];
        assert(x.to_multiset().contains(y[0]));
        assert(x.contains(y[0]));
        let i = choose|i: int| 0 <= i < x.len() && x[i] == y[0];
        // The heads carry the least path on both sides, so their paths agree.
        assert(lex_le(y[0].path, x[0].path)) by {
            if j > 0 {
                assert(lex_le(y[0].path, y[j].path));
            } else {
                lemma_lex_le_total(y[0].path, x[0].path);
                lemma_lex_le_antisymmetric(y[0].path, x[0].path);
            }
        }
        assert(lex_le(x[0].path, y[0].path)) by {
            if i > 0 {
                assert(lex_le(x[0].path, x[i].path));
            } else {
                lemma_lex_le_total(x[0].path, y[0].path);
                lemma_lex_le_antisymmetric(x[0].path, y[0].path);
            }
        }
        lemma_lex_le_antisymmetric(x[0].path, y[0].path);
        // A repeated least path in `x` is ruled out, so the heads are equal.
        assert(x[0] == y[0]) by {
            if i != 0 {
                assert(x[0].path != x[i].path);
            }
        }
        let xr = x.drop_first();
        let yr = y.drop_first();
        assert(xr =~= x.remove(0));
        assert(yr =~= y.remove(0));
        vstd::seq_lib::to_multiset_remove(x, 0);
        vstd::seq_lib::to_multiset_remove(y, 0);
        assert forall|i2: int, j2: int| 0 <= i2 < j2 < xr.len() implies lex_le(
            #[trigger] xr[i2].path,
            #[trigger] xr[j2].path,
        ) by {
            assert(xr[i2] == x[i2 + 1] && xr[j2] == x[j2 + 1]);
        }
        assert forall|i2: int, j2: int| 0 <= i2 < j2 < yr.len() implies lex_le(
            #[trigger] yr[i2].path,
            #[trigger] yr[j2].path,
        ) by {
            assert(yr[i2] == y[i2 + 1] && yr[j2] == y[j2 + 1]);
        }
        assert forall|i2: int, j2: int| 0 <= i2 < j2 < xr.len() implies (#[trigger] xr[i2].path)
            != (#[trigger] xr[j2].path) by {
            assert(xr[i2] == x[i2 + 1] && xr[j2] == x[j2 + 1]);
        }
        lemma_sorted_multiset_unique(xr, yr);
        assert(x =~= seq![x[0]] + xr);
        assert(y =~= seq![y[0]] + yr);
    }
}

/// Hash stability under listing order: the same files, listed in any
/// order, give the same package digest and the same per-file detail,
/// provided no two of them share a path.
pub proof fn lemma_digest_order_independent(s1: Seq<FileModel>, s2: Seq<FileModel>)
    requires
        s1.to_multiset() == s2.to_multiset(),
        distinct_paths(s1),
    ensures
        spec_sort_files(s1) == spec_sort_files(s2),
        spec_package_digest(s1) == spec_package_digest(s2),
{
    lemma_sort_files_sorted(s1);
    lemma_sort_files_sorted(s2);
    // Distinctness carries over to the sorted list through the multiset.
    let t1 = spec_sort_files(s1);
    assert forall|i: int, j: int| 0 <= i < j < t1.len() implies (#[trigger] t1[i].path) != (
    #[trigger] t1[j].path) by {
        if t1[i].path == t1[j].path {
            let u = t1.remove(j);
            vstd::seq_lib::to_multiset_remove(t1, j);
            assert(u[i] == t1[i]);
            assert(u.to_multiset().contains(u[i]));
            assert(u.to_multiset() == s1.to_multiset().remove(t1[j]));
            // Both files sit in the original list, at two positions.
            assert(s1.to_multiset().contains(t1[j]));
            assert(s1.contains(t1[j]));
            let b = choose|b: int| 0 <= b < s1.len() && s1[b] == t1[j];
            let v = s1.remove(b);
            vstd::seq_lib::to_multiset_remove(s1, b);
            assert(v.to_multiset() == u.to_multiset());
            assert(v.to_multiset().contains(t1[i]));
            assert(v.contains(t1[i]));
            let a = choose|a: int| 0 <= a < v.len() && v[a] == t1[i];
            if a < b {
                assert(v[a] == s1[a]);
                assert(s1[a].path == s1[b].path);
            } else {
                assert(v[a] == s1[a + 1]);
                assert(s1[a + 1].path == s1[b].path);
            }
            assert(false);
        }
    }
    lemma_sorted_multiset_unique(t1, spec_sort_files(s2));
}

/// Copy a tracked file, keeping its path and content.
fn clone_file(f: &TrackedFile) -> (r: TrackedFile)
    ensures
        r@ == f@,
{
    let mut content: Vec<u8> = Vec::new();
    let mut i: usize = 0;
    while i < f.content.len()
        invariant
            i <= f.content@.len(),
            content@.len() == i,
            forall|k: int| 0 <= k < i ==> content@[k] == f.content@[k],
        decreases f.content@.len() - i,
    {
        content.push(f.content[i]);
        i += 1;
    }
    proof {
        assert(content@ =~= f.content@);
    }
    TrackedFile { path: f.path.clone(), content }
}

/// Insert a file into a path-ordered list, after every file whose path
/// does not exceed its own.
#[verifier::loop_isolation(false)]
fn insert_file(out: &mut Vec<TrackedFile>, f: TrackedFile)
    requires
        sorted_by_path(old(out).deep_view()),
    ensures
        final(out).deep_view() == spec_insert_file(f@, old(out).deep_view()),
        sorted_by_path(final(out).deep_view()),
{
    let ghost s = old(out).deep_view();
    let mut idx: usize = 0;
    while idx < out.len() && str_le(&out[idx].path, &f.path)
        invariant
            idx <= out@.len(),
            out == old(out),
            forall|k: int| 0 <= k < idx ==> lex_le(s[k].path, f@.path),
        decreases out@.len() - idx,
    {
        idx += 1;
    }
    out.insert(idx, f);
    proof {
        lemma_insert_file_at(f@, s, idx as int);
        assert(out.deep_view() =~= s.take(idx as int) + seq![f@] + s.skip(idx as int));
        lemma_insert_file_sorted(f@, s);
    }
}

/// Insertion lands exactly where the first greater path stands.
proof fn lemma_insert_file_at(f: FileModel, s: Seq<FileModel>, p: int)
    requires
        0 <= p <= s.len(),
        forall|k: int| 0 <= k < p ==> lex_le(#[trigger] s[k].path, f.path),
        p < s.len() ==> !lex_le(s[p].path, f.path),
    ensures
        spec_insert_file(f, s) == s.take(p) + seq![f] + s.skip(p),
    decreases s.len(),
{
    if s.len() == 0 {
        assert(spec_insert_file(f, s) =~= s.take(0) + seq![f] + s.skip(0));
    } else if p == 0 {
        if !lex_le(s[0].path, f.path) {
            assert(spec_insert_file(f, s) =~= s.take(0) + seq![f] + s.skip(0));
        } else {
            // The insertion point is not yet reached, contradiction with p == 0.
            assert(lex_le(s[0].path, f.path));
            assert(!lex_le(s[p].path, f.path));
            assert(false);
        }
    } else {
        assert(lex_le(s[0].path, f.path));
        let rest = s.drop_first();
        assert forall|k: int| 0 <= k < p - 1 implies lex_le(
            (#[trigger] rest[k]).path,
            f.path,
        ) by {
            assert(rest[k] == s[k + 1]);
        }
        assert(p - 1 < rest.len() ==> !lex_le(rest[p - 1].path, f.path));
        lemma_insert_file_at(f, rest, p - 1);
        assert(spec_insert_file(f, s) =~= s.take(p) + seq![f] + s.skip(p)) by {
            assert(spec_insert_file(f, s) == seq![s[0]] + spec_insert_file(f, rest));
            assert(spec_insert_file(f, rest) == rest.take(p - 1) + seq![f] + rest.skip(p - 1));
            assert forall|k: int| 0 <= k < rest.take(p - 1).len() implies #[trigger] rest.take(
                p - 1,
            )[k] == s.take(p)[k + 1] by {
                assert(rest.take(p - 1)[k] == s[k + 1]);
            }
        }
    }
}

/// The digest and per-file detail of a package's tracked files: each
/// file's content digest and path, in path order, and the digest of that
/// listing.  The result depends only on which (path, content) pairs are
/// handed in, not on their order, as long as paths repeat nowhere.
#[verifier::loop_isolation(false)]
pub fn hash_package(files: &Vec<TrackedFile>) -> (r: (String, String))
    ensures
        r.0@ == spec_package_digest(files.deep_view()),
        r.1@ == spec_detail(spec_sort_files(files.deep_view())),
        r.0@.len() == 32,
        forall|k: int| 0 <= k < r.0@.len() ==> is_lower_hex_digit(#[trigger] r.0@[k]),
{
    let ghost fm = files.deep_view();
    let mut sorted: Vec<TrackedFile> = Vec::new();
    proof {
        assert(fm.take(0) =~= Seq::<FileModel>::empty());
        assert(sorted.deep_view() =~= spec_sort_files(fm.take(0)));
    }
    let mut i: usize = 0;
    while i < files.len()
        invariant
            i <= files@.len(),
            sorted.deep_view() == spec_sort_files(fm.take(i as int)),
            sorted_by_path(sorted.deep_view()),
        decreases files@.len() - i,
    {
        insert_file(&mut sorted, clone_file(&files[i]));
        proof {
            assert(fm.take(i as int + 1).drop_last() =~= fm.take(i as int));
            assert(fm.take(i as int + 1).last() == fm[i as int]);
        }
        i += 1;
    }
    proof {
        assert(fm.take(fm.len() as int) =~= fm);
    }
    let ghost sm = spec_sort_files(fm);

    let mut detail = String::new();
    proof {
        reveal_strlit("\n");
        reveal_strlit("-");
        assert(sm.take(0) =~= Seq::<FileModel>::empty());
        assert(detail@ =~= spec_detail(sm.take(0)));
    }
    let mut k: usize = 0;
    while k < sorted.len()
        invariant
            k <= sorted@.len(),
            sorted.deep_view() == sm,
            detail@ == spec_detail(sm.take(k as int)),
        decreases sorted@.len() - k,
    {
        if k > 0 {
            detail.append("\n");
        }
        let line_hash = md5_hex(sorted[k].content.as_slice());
        detail.append(line_hash.as_str());
        detail.append("-");
        detail.append(sorted[k].path.as_str());
        proof {
            assert(sm.take(k as int + 1).drop_last() =~= sm.take(k as int));
            assert(sm.take(k as int + 1).last() == sm[k as int]);
            assert(sorted@[k as int]@ == sm[k as int]);
            if k == 0 {
                assert(detail@ =~= spec_file_line(sm[0]));
                assert(sm.take(1)[0] == sm[0]);
            } else {
                assert(detail@ =~= spec_detail(sm.take(k as int)) + seq!['\n'] + spec_file_line(
                    sm[k as int],
                ));
            }
        }
        k += 1;
    }
    proof {
        assert(sm.take(sm.len() as int) =~= sm);
    }
    let digest = md5_hex(detail.as_str().as_bytes());
    (digest, detail)
}

} // verus!
