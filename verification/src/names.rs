//! Zone file name normalization.
//!
//! A user-supplied zone name may already carry a trailing `.zone` or
//! `.zone.ron` segment; saving re-appends the canonical `.zone.ron` suffix,
//! so the stale segment is stripped first to avoid double-suffixed file
//! names.

use vstd::prelude::*;
use vstd::string::StrSliceExecFns;

verus! {

/// `s` ends with the suffix `p`.
pub open spec fn seq_ends_with(s: Seq<char>, p: Seq<char>) -> bool {
    s.len() >= p.len() && s.skip(s.len() - p.len()) == p
}

/// What normalization yields: a trailing `.zone.ron` or `.zone` segment is
/// stripped; any other name is kept as it is. A name merely ending in
/// `zone` with no dot before it stays whole.
pub open spec fn spec_normalize_zone_name(s: Seq<char>) -> Seq<char> {
    if seq_ends_with(s, ".zone.ron"@) {
        s.subrange(0, s.len() - ".zone.ron"@.len())
    } else if seq_ends_with(s, ".zone"@) {
        s.subrange(0, s.len() - ".zone"@.len())
    } else {
        s
    }
}

fn str_ends_with(s: &str, suffix: &str) -> (b: bool)
    ensures
        b == seq_ends_with(s@, suffix@),
{
    let n = s.unicode_len();
    let m = suffix.unicode_len();
    if n < m {
        return false;
    }
    let mut k: usize = 0;
    while k < m
        invariant
            m <= n == s@.len(),
            m == suffix@.len(),
            k <= m,
            forall|j: int| 0 <= j < k ==> s@[n - m + j] == suffix@[j],
        decreases m - k,
    {
        if s.get_char(n - m + k) != suffix.get_char(k) {
            assert(s@.skip(n - m) != suffix@) by {
                assert(s@.skip((n - m) as int)[k as int] != suffix@[k as int]);
            }
            return false;
        }
        k += 1;
    }
    assert(s@.skip(n - m) =~= suffix@);
    true
}

/// Strips a stale trailing `.zone.ron` or `.zone` segment from a zone
/// name, so that the canonical suffix can be re-appended without doubling.
pub fn normalize_zone_name(name: &str) -> (r: String)
    ensures
        r@ == spec_normalize_zone_name(name@),
{
    let n = name.unicode_len();
    if str_ends_with(name, ".zone.ron") {
        proof {
            reveal_strlit(".zone.ron");
        }
        let stem = name.substring_char(0, n - 9);
        stem.to_owned()
    } else if str_ends_with(name, ".zone") {
        proof {
            reveal_strlit(".zone");
        }
        let stem = name.substring_char(0, n - 5);
        stem.to_owned()
    } else {
        name.to_owned()
    }
}

/// The on-disk path of a zone: the normalized name inside the zones
/// directory, with the canonical `.zone.ron` suffix.
pub fn zone_file_path(name: &str) -> (r: String)
    ensures
        r@ == "assets/zones/"@ + spec_normalize_zone_name(name@) + ".zone.ron"@,
{
    let mut out: String = "assets/zones/".to_owned();
    let stem = normalize_zone_name(name);
    out.append(stem.as_str());
    out.append(".zone.ron");
    out
}

/// Law: normalizing a name, appending the canonical suffix, and
/// normalizing again gives the first result back.
pub proof fn lemma_normalize_idempotent(x: Seq<char>)
    ensures
        spec_normalize_zone_name(spec_normalize_zone_name(x) + ".zone.ron"@)
            == spec_normalize_zone_name(x),
{
    reveal_strlit(".zone.ron");
    let y = spec_normalize_zone_name(x);
    let z = y + ".zone.ron"@;
    assert(seq_ends_with(z, ".zone.ron"@)) by {
        assert(z.skip(z.len() - 9) =~= ".zone.ron"@);
    }
    assert(z.subrange(0, z.len() - 9) =~= y);
}

/// The zone name a directory entry stands for: the part before a final
/// `.ron` extension; a file without that extension is no zone file.
pub fn zone_file_stem(file_name: &str) -> (r: Option<String>)
    ensures
        (r is Some) <==> (file_name@.len() > ".ron"@.len() && seq_ends_with(file_name@, ".ron"@)),
        r matches Some(s) ==> s@ == file_name@.subrange(
            0,
            file_name@.len() - ".ron"@.len(),
        ),
{
    let n = file_name.unicode_len();
    let m = ".ron".unicode_len();
    if n <= m {
        return None;
    }
    if str_ends_with(file_name, ".ron") {
        let stem = file_name.substring_char(0, n - m);
        Some(stem.to_owned())
    } else {
        None
    }
}

} // verus!
