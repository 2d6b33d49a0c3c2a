//! The content-addressed build cache: where a package's output snapshot
//! lives for a given content digest.
//!
//! An entry is a directory keyed by package name and digest.  Because the
//! digest is part of the path, a changed digest names a different entry:
//! stale content is never served, and no invalidation step exists beyond
//! the digest itself.

use vstd::prelude::*;
use crate::hash::is_lower_hex_digit;
use crate::text::join_path;
use crate::text::spec_join_path;

verus! {

/// The directory that holds the snapshot for a package name and digest:
/// the digest keyed under the name, under the cache root.
pub open spec fn spec_package_cache_dir(
    cache_root: Seq<char>,
    name: Seq<char>,
    digest: Seq<char>,
) -> Seq<char> {
    spec_join_path(spec_join_path(cache_root, name), digest)
}

/// The cache entry for a package name and digest.
pub fn package_cache_dir(cache_root: &str, name: &str, digest: &str) -> (r: String)
    ensures
        r@ == spec_package_cache_dir(cache_root@, name@, digest@),
{
    let base = join_path(cache_root, name);
    join_path(base.as_str(), digest)
}

/// Content addressing: under one cache root and package name, a restore
/// for a digest reads exactly the entry a save for the same digest wrote,
/// and a save under any other digest wrote somewhere else entirely — a
/// restore after it finds no entry and reports a miss, never stale content.
pub proof fn lemma_cache_entry_content_addressed(
    cache_root: Seq<char>,
    name: Seq<char>,
    d_saved: Seq<char>,
    d_now: Seq<char>,
)
    requires
        d_saved.len() > 0,
        d_saved[0] != '/',
        d_now.len() > 0,
        d_now[0] != '/',
    ensures
        d_now == d_saved ==> spec_package_cache_dir(cache_root, name, d_now)
            == spec_package_cache_dir(cache_root, name, d_saved),
        d_now != d_saved ==> spec_package_cache_dir(cache_root, name, d_now)
            != spec_package_cache_dir(cache_root, name, d_saved),
{
    let base = spec_join_path(cache_root, name);
    if d_now != d_saved {
        if base.len() == 0 {
            assert(spec_package_cache_dir(cache_root, name, d_now) == d_now);
            assert(spec_package_cache_dir(cache_root, name, d_saved) == d_saved);
        } else {
            let prefix = if base[base.len() - 1] == '/' {
                base
            } else {
                base + seq!['/']
            };
            assert(spec_package_cache_dir(cache_root, name, d_now) == prefix + d_now);
            assert(spec_package_cache_dir(cache_root, name, d_saved) == prefix + d_saved);
            if prefix + d_now == prefix + d_saved {
                assert(d_now =~= d_saved) by {
                    assert(forall|k: int|
                        0 <= k < d_now.len() ==> (prefix + d_now)[prefix.len() + k] == #[trigger] d_now[k]);
                    assert(forall|k: int|
                        0 <= k < d_saved.len() ==> (prefix + d_saved)[prefix.len() + k]
                            == #[trigger] d_saved[k]);
                }
                assert(false);
            }
        }
    }
}

/// A digest made of hexadecimal digits never starts with a separator, so
/// [`lemma_cache_entry_content_addressed`] applies to every digest the
/// content hasher produces.
pub proof fn lemma_hex_digest_is_cache_key(digest: Seq<char>)
    requires
        digest.len() > 0,
        is_lower_hex_digit(digest[0]),
    ensures
        digest[0] != '/',
{
    assert('/' as int == 47);
}

} // verus!
