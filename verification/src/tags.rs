//! The doodad tag index: a mapping from tag to the doodad names listed
//! under it, rebuilt wholesale from the manifest.
//!
//! Every doodad also appears under the synthetic all-doodads tag. After a
//! rebuild the tag keys are strictly sorted and each tag's name list is
//! strictly sorted — ordered and duplicate-free — so any listing drawn
//! from the index is deterministic and display-ready.

use vstd::prelude::*;
use crate::manifest::{DoodadDefinitionView, DoodadManifest, defs_view, strings_view};
use crate::text::str_eq;
use vstd::string::StrSliceExecFns;

verus! {

/// Lexicographic order on character sequences, by code point.
pub open spec fn lex_leq(a: Seq<char>, b: Seq<char>) -> bool
    decreases a.len(),
{
    if a.len() == 0 {
        true
    } else if b.len() == 0 {
        false
    } else if (a[0] as u32) < (b[0] as u32) {
        true
    } else if (a[0] as u32) > (b[0] as u32) {
        false
    } else {
        lex_leq(a.skip(1), b.skip(1))
    }
}

pub proof fn lemma_lex_total(a: Seq<char>, b: Seq<char>)
    ensures
        lex_leq(a, b) || lex_leq(b, a),
    decreases a.len(),
{
    if a.len() > 0 && b.len() > 0 && a[0] as u32 == b[0] as u32 {
        lemma_lex_total(a.skip(1), b.skip(1));
    }
}

pub proof fn lemma_lex_trans(a: Seq<char>, b: Seq<char>, c: Seq<char>)
    requires
        lex_leq(a, b),
        lex_leq(b, c),
    ensures
        lex_leq(a, c),
    decreases a.len(),
{
    if a.len() > 0 {
        assert(b.len() > 0);
        if b.len() > 0 && c.len() > 0 && a[0] as u32 == b[0] as u32 && b[0] as u32 == c[0] as u32 {
            lemma_lex_trans(a.skip(1), b.skip(1), c.skip(1));
        }
    }
}

/// When two sequences agree on their first `k` characters, their order is
/// decided past them.
proof fn lemma_lex_common_prefix(a: Seq<char>, b: Seq<char>, k: int)
    requires
        0 <= k <= a.len(),
        k <= b.len(),
        forall|j: int| 0 <= j < k ==> a[j] == b[j],
    ensures
        lex_leq(a, b) == lex_leq(a.skip(k), b.skip(k)),
    decreases k,
{
    if k > 0 {
        assert(a.len() > 0 && b.len() > 0);
        assert(a[0] == b[0]);
        lemma_lex_common_prefix(a.skip(1), b.skip(1), k - 1);
        assert(a.skip(1).skip(k - 1) =~= a.skip(k));
        assert(b.skip(1).skip(k - 1) =~= b.skip(k));
    } else {
        assert(a.skip(0) =~= a);
        assert(b.skip(0) =~= b);
    }
}

/// Compares two strings lexicographically by code point.
pub fn str_lex_leq(a: &str, b: &str) -> (r: bool)
    ensures
        r == lex_leq(a@, b@),
{
    let n = a.unicode_len();
    let m = b.unicode_len();
    let mut k: usize = 0;
    while k < n && k < m
        invariant
            n == a@.len(),
            m == b@.len(),
            k <= n,
            k <= m,
            forall|j: int| 0 <= j < k ==> a@[j] == b@[j],
        decreases n - k,
    {
        let ca = a.get_char(k);
        let cb = b.get_char(k);
        let ua = ca as u32;
        let ub = cb as u32;
        if ua < ub {
            proof {
                lemma_lex_common_prefix(a@, b@, k as int);
            }
            return true;
        }
        if ua > ub {
            proof {
                lemma_lex_common_prefix(a@, b@, k as int);
            }
            return false;
        }
        proof {
            vstd::utf8::char_u32_cast(ca, ua);
            vstd::utf8::char_u32_cast(cb, ub);
        }
        k += 1;
    }
    proof {
        lemma_lex_common_prefix(a@, b@, k as int);
    }
    n <= m
}

/// The sequence is in lexicographic order.
pub open spec fn sorted_strs(s: Seq<Seq<char>>) -> bool {
    forall|i: int, j: int| 0 <= i < j < s.len() ==> lex_leq(#[trigger] s[i], #[trigger] s[j])
}

/// The sequence is in strictly increasing lexicographic order.
pub open spec fn strictly_sorted_strs(s: Seq<Seq<char>>) -> bool {
    forall|i: int, j: int|
        0 <= i < j < s.len() ==> lex_leq(#[trigger] s[i], #[trigger] s[j]) && s[i] != s[j]
}

/// Inserts a name into a strictly sorted list, keeping it strictly sorted:
/// the name is put in order, or left alone when it is already there.
fn insert_string_sorted(v: &mut Vec<String>, x: String)
    requires
        strictly_sorted_strs(strings_view(old(v)@)),
    ensures
        strictly_sorted_strs(strings_view(final(v)@)),
        forall|nm: Seq<char>|
            #[trigger] strings_view(final(v)@).contains(nm) <==> (strings_view(
                old(v)@,
            ).contains(nm) || nm == x@),
        final(v)@.len() > 0,
{
    let n = v.len();
    let mut idx: usize = 0;
    let mut found = false;
    let mut past = false;
    while idx < n && !found && !past
        invariant
            n == v@.len(),
            v@ == old(v)@,
            idx <= n,
            forall|t: int|
                0 <= t < idx ==> lex_leq(#[trigger] strings_view(v@)[t], x@) && strings_view(
                    v@,
                )[t] != x@,
            found ==> idx < n && strings_view(v@)[idx as int] == x@,
            past ==> idx < n && !lex_leq(strings_view(v@)[idx as int], x@),
        decreases n - idx, (if found || past { 0int } else { 1int }),
    {
        proof {
            assert(strings_view(v@)[idx as int] == v@[idx as int]@);
        }
        if str_eq(v[idx].as_str(), x.as_str()) {
            found = true;
        } else if str_lex_leq(v[idx].as_str(), x.as_str()) {
            idx += 1;
        } else {
            past = true;
        }
    }
    if found {
        proof {
            assert(strings_view(v@).contains(x@)) by {
                assert(strings_view(v@)[idx as int] == x@);
            }
        }
        return ;
    }
    let ghost oldv = strings_view(v@);
    proof {
        // the name is absent: everything before the spot is strictly less,
        // everything from it on is strictly greater
        assert forall|t: int| idx <= t < oldv.len() implies !lex_leq(#[trigger] oldv[t], x@)
            && oldv[t] != x@ by {
            assert(!lex_leq(oldv[idx as int], x@));
            if t > idx {
                assert(lex_leq(oldv[idx as int], oldv[t]));
                if lex_leq(oldv[t], x@) {
                    lemma_lex_trans(oldv[idx as int], oldv[t], x@);
                }
            }
            if oldv[t] == x@ {
                lemma_lex_refl(x@);
            }
        }
    }
    v.insert(idx, x);
    proof {
        let newv = strings_view(v@);
        assert(newv =~= oldv.insert(idx as int, x@)) by {
            assert(v@ == old(v)@.insert(idx as int, x));
            assert forall|t: int| 0 <= t < newv.len() implies newv[t] == oldv.insert(
                idx as int,
                x@,
            )[t] by {
                assert(newv[t] == v@[t]@);
                if t < idx {
                    assert(v@[t] == old(v)@[t]);
                    assert(oldv[t] == old(v)@[t]@);
                } else if t == idx {
                    assert(v@[t] == x);
                } else {
                    assert(v@[t] == old(v)@[t - 1]);
                    assert(oldv[t - 1] == old(v)@[t - 1]@);
                }
            }
        }
        assert(strictly_sorted_strs(newv)) by {
            assert forall|i: int, j: int| 0 <= i < j < newv.len() implies lex_leq(
                #[trigger] newv[i],
                #[trigger] newv[j],
            ) && newv[i] != newv[j] by {
                let ii = if i < idx {
                    i
                } else {
                    i - 1
                };
                let jj = if j < idx {
                    j
                } else {
                    j - 1
                };
                if i == idx {
                    // the inserted name against a later entry
                    assert(idx <= jj < oldv.len());
                    assert(!lex_leq(oldv[jj], x@) && oldv[jj] != x@);
                    lemma_lex_total(x@, oldv[jj]);
                } else if j == idx {
                    assert(lex_leq(oldv[ii], x@) && oldv[ii] != x@);
                } else {
                    assert(lex_leq(oldv[ii], oldv[jj]) && oldv[ii] != oldv[jj]);
                }
            }
        }
        assert forall|nm: Seq<char>| #[trigger] newv.contains(nm) implies (oldv.contains(nm) || nm
            == x@) by {
            let t = choose|t: int| 0 <= t < newv.len() && newv[t] == nm;
            if t < idx {
                assert(oldv[t] == nm);
            } else if t > idx {
                assert(oldv[t - 1] == nm);
            }
        }
        assert forall|nm: Seq<char>| oldv.contains(nm) || nm == x@ implies #[trigger] newv.contains(
            nm,
        ) by {
            if oldv.contains(nm) {
                let t = choose|t: int| 0 <= t < oldv.len() && oldv[t] == nm;
                if t < idx {
                    assert(newv[t] == nm);
                } else {
                    assert(newv[t + 1] == nm);
                }
            } else {
                assert(newv[idx as int] == nm);
            }
        }
    }
}

/// The tag index: for each tag, the doodad names listed under it.
#[derive(Debug)]
pub struct DoodadTagMap {
    pub entries: Vec<(String, Vec<String>)>,
}

/// The mathematical value of the tag index.
pub open spec fn tag_map_view(v: Seq<(String, Vec<String>)>) -> Seq<(Seq<char>, Seq<Seq<char>>)> {
    v.map_values(|p: (String, Vec<String>)| (p.0@, strings_view(p.1@)))
}

impl View for DoodadTagMap {
    type V = Seq<(Seq<char>, Seq<Seq<char>>)>;

    open spec fn view(&self) -> Seq<(Seq<char>, Seq<Seq<char>>)> {
        tag_map_view(self.entries@)
    }
}

/// The names stored under a tag, if the tag is present.
pub open spec fn tag_lookup(m: Seq<(Seq<char>, Seq<Seq<char>>)>, t: Seq<char>) -> Option<
    Seq<Seq<char>>,
>
    decreases m.len(),
{
    if m.len() == 0 {
        None
    } else if m[0].0 == t {
        Some(m[0].1)
    } else {
        tag_lookup(m.skip(1), t)
    }
}

/// The names stored under a tag; an absent tag lists nothing.
pub open spec fn tag_names(m: Seq<(Seq<char>, Seq<Seq<char>>)>, t: Seq<char>) -> Seq<Seq<char>> {
    match tag_lookup(m, t) {
        Some(ns) => ns,
        None => Seq::empty(),
    }
}

/// The tag every doodad is listed under.
pub open spec fn all_doodads_tag() -> Seq<char> {
    "all_doodads"@
}

/// The tags of a definition, an empty list when it declares none.
pub open spec fn def_tags(d: DoodadDefinitionView) -> Seq<Seq<char>> {
    match d.tags {
        Some(t) => t,
        None => Seq::empty(),
    }
}

/// The manifest lists `nm` under tag `t`: some definition carries the name
/// and lists the tag, or `t` is the synthetic all-doodads tag.
pub open spec fn listed_under(
    defs: Seq<(Seq<char>, DoodadDefinitionView)>,
    t: Seq<char>,
    nm: Seq<char>,
) -> bool {
    exists|k: int|
        0 <= k < defs.len() && (#[trigger] defs[k]).0 == nm && (t == all_doodads_tag()
            || def_tags(defs[k].1).contains(t))
}

/// What is listed while one definition's tags are still being walked: the
/// finished definitions, plus the walked tag prefix of the current one.
spec fn listed_mid(
    defs: Seq<(Seq<char>, DoodadDefinitionView)>,
    tags: Seq<Seq<char>>,
    name: Seq<char>,
    t: Seq<char>,
    nm: Seq<char>,
) -> bool {
    listed_under(defs, t, nm) || (nm == name && tags.contains(t))
}

/// Appending an element to a sequence of names adds exactly it to the
/// members.
proof fn lemma_push_contains(s: Seq<Seq<char>>, x: Seq<char>, e: Seq<char>)
    ensures
        s.push(x).contains(e) <==> (s.contains(e) || e == x),
{
    if s.push(x).contains(e) {
        let t = choose|t: int| 0 <= t < s.push(x).len() && s.push(x)[t] == e;
        if t < s.len() {
            assert(s[t] == e);
        }
    }
    if s.contains(e) {
        let t = choose|t: int| 0 <= t < s.len() && s[t] == e;
        assert(s.push(x)[t] == e);
    }
    if e == x {
        assert(s.push(x)[s.len() as int] == e);
    }
}

/// Appending a definition extends what is listed by exactly its own names.
proof fn lemma_listed_under_push(
    defs: Seq<(Seq<char>, DoodadDefinitionView)>,
    p: (Seq<char>, DoodadDefinitionView),
    t: Seq<char>,
    nm: Seq<char>,
)
    ensures
        listed_under(defs.push(p), t, nm) <==> (listed_under(defs, t, nm) || (p.0 == nm && (t
            == all_doodads_tag() || def_tags(p.1).contains(t)))),
{
    let d2 = defs.push(p);
    if listed_under(d2, t, nm) {
        let k = choose|k: int|
            0 <= k < d2.len() && (#[trigger] d2[k]).0 == nm && (t == all_doodads_tag()
                || def_tags(d2[k].1).contains(t));
        if k < defs.len() {
            assert(defs[k] == d2[k]);
        } else {
            assert(d2[k] == p);
        }
    }
    if listed_under(defs, t, nm) {
        let k = choose|k: int|
            0 <= k < defs.len() && (#[trigger] defs[k]).0 == nm && (t == all_doodads_tag()
                || def_tags(defs[k].1).contains(t));
        assert(d2[k] == defs[k]);
    }
    if p.0 == nm && (t == all_doodads_tag() || def_tags(p.1).contains(t)) {
        assert(d2[defs.len() as int] == p);
    }
}

/// The tag keys of the index.
pub open spec fn tag_keys(m: Seq<(Seq<char>, Seq<Seq<char>>)>) -> Seq<Seq<char>> {
    m.map_values(|p: (Seq<char>, Seq<Seq<char>>)| p.0)
}

/// The index is well shaped: keys strictly sorted, every list strictly
/// sorted — ordered and duplicate-free — and non-empty.
pub open spec fn tag_map_wf(m: Seq<(Seq<char>, Seq<Seq<char>>)>) -> bool {
    &&& strictly_sorted_strs(tag_keys(m))
    &&& forall|k: int|
        0 <= k < m.len() ==> strictly_sorted_strs((#[trigger] m[k]).1) && m[k].1.len() > 0
}

/// Looking a key up walks the entries in order.
proof fn lemma_tag_lookup_index(m: Seq<(Seq<char>, Seq<Seq<char>>)>, t: Seq<char>)
    ensures
        (tag_lookup(m, t) is Some) <==> (exists|k: int|
            0 <= k < m.len() && (#[trigger] m[k]).0 == t),
        tag_lookup(m, t) matches Some(ns) ==> exists|k: int|
            0 <= k < m.len() && (#[trigger] m[k]).0 == t && m[k].1 == ns,
    decreases m.len(),
{
    if m.len() > 0 {
        lemma_tag_lookup_index(m.skip(1), t);
        if m[0].0 != t {
            if tag_lookup(m.skip(1), t) is Some {
                let ns = tag_lookup(m.skip(1), t)->Some_0;
                let k = choose|k: int|
                    0 <= k < m.skip(1).len() && (#[trigger] m.skip(1)[k]).0 == t && m.skip(1)[k].1
                        == ns;
                assert(m[k + 1] == m.skip(1)[k]);
            }
            if exists|k: int| 0 <= k < m.len() && (#[trigger] m[k]).0 == t {
                let k = choose|k: int| 0 <= k < m.len() && (#[trigger] m[k]).0 == t;
                assert(m.skip(1)[k - 1] == m[k]);
            }
        }
    }
}

/// Updating one entry's list changes only that key's lookup.
proof fn lemma_tag_lookup_update(
    m: Seq<(Seq<char>, Seq<Seq<char>>)>,
    i: int,
    p: (Seq<char>, Seq<Seq<char>>),
    t: Seq<char>,
)
    requires
        0 <= i < m.len(),
        p.0 == m[i].0,
        forall|k: int| 0 <= k < i ==> (#[trigger] m[k]).0 != p.0,
    ensures
        t == p.0 ==> tag_lookup(m.update(i, p), t) == Some(p.1),
        t != p.0 ==> tag_lookup(m.update(i, p), t) == tag_lookup(m, t),
    decreases m.len(),
{
    let m2 = m.update(i, p);
    if i == 0 {
        assert(m2[0] == p);
        if t != p.0 {
            assert(m2.skip(1) =~= m.skip(1));
        }
    } else {
        assert(m2[0] == m[0]);
        assert(m2.skip(1) =~= m.skip(1).update(i - 1, p));
        assert(m.skip(1)[i - 1] == m[i]);
        assert(forall|k: int| 0 <= k < i - 1 ==> (#[trigger] m.skip(1)[k]).0 == m[k + 1].0);
        lemma_tag_lookup_update(m.skip(1), i - 1, p, t);
        assert(m[0].0 != p.0);
    }
}

/// Inserting an entry under a fresh key changes only that key's lookup.
proof fn lemma_tag_lookup_insert(
    m: Seq<(Seq<char>, Seq<Seq<char>>)>,
    i: int,
    p: (Seq<char>, Seq<Seq<char>>),
    t: Seq<char>,
)
    requires
        0 <= i <= m.len(),
        forall|k: int| 0 <= k < m.len() ==> (#[trigger] m[k]).0 != p.0,
    ensures
        t == p.0 ==> tag_lookup(m.insert(i, p), t) == Some(p.1),
        t != p.0 ==> tag_lookup(m.insert(i, p), t) == tag_lookup(m, t),
    decreases m.len(), i,
{
    let m2 = m.insert(i, p);
    assert(m2.len() == m.len() + 1);
    if i == 0 {
        assert(m2[0] == p);
        assert(m2.skip(1) =~= m);
    } else {
        assert(m2[0] == m[0]);
        assert(m2.skip(1) =~= m.skip(1).insert(i - 1, p));
        assert(forall|k: int|
            0 <= k < m.skip(1).len() ==> (#[trigger] m.skip(1)[k]).0 == m[k + 1].0);
        lemma_tag_lookup_insert(m.skip(1), i - 1, p, t);
        assert(m[0].0 != p.0);
    }
}

/// Lexicographic order is reflexive.
pub proof fn lemma_lex_refl(a: Seq<char>)
    ensures
        lex_leq(a, a),
{
    lemma_lex_total(a, a);
}

/// When the matching key stands at `i` and no earlier key matches, the
/// lookup returns that entry.
proof fn lemma_lookup_found_at(m: Seq<(Seq<char>, Seq<Seq<char>>)>, t: Seq<char>, i: int)
    requires
        0 <= i < m.len(),
        m[i].0 == t,
        forall|k: int| 0 <= k < i ==> (#[trigger] m[k]).0 != t,
    ensures
        tag_lookup(m, t) == Some(m[i].1),
    decreases i,
{
    if i > 0 {
        assert(m[0].0 != t);
        assert(m.skip(1)[i - 1] == m[i]);
        assert(forall|k: int| 0 <= k < i - 1 ==> (#[trigger] m.skip(1)[k]).0 == m[k + 1].0);
        lemma_lookup_found_at(m.skip(1), t, i - 1);
    }
}

/// Records `name` under `tag`: the tag's list gains the name (a fresh tag
/// starts its list; a name already listed stays listed once), every other
/// tag is untouched, and the index stays well shaped.
#[verifier::rlimit(100)]
#[verifier::spinoff_prover]
fn tag_map_insert(entries: &mut Vec<(String, Vec<String>)>, tag: &str, name: &str)
    requires
        tag_map_wf(tag_map_view(old(entries)@)),
    ensures
        tag_map_wf(tag_map_view(final(entries)@)),
        forall|t: Seq<char>|
            t != tag@ ==> #[trigger] tag_lookup(tag_map_view(final(entries)@), t) == tag_lookup(
                tag_map_view(old(entries)@),
                t,
            ),
        tag_lookup(tag_map_view(final(entries)@), tag@) matches Some(ns2) && ns2.len() > 0 && (
        forall|nm: Seq<char>|
            #[trigger] ns2.contains(nm) <==> (tag_names(tag_map_view(old(entries)@), tag@).contains(
                nm,
            ) || nm == name@)),
{
    let ghost m0 = tag_map_view(entries@);
    let n = entries.len();
    let mut idx: usize = 0;
    let mut found = false;
    let mut past = false;
    while idx < n && !found && !past
        invariant
            n == entries@.len(),
            m0 == tag_map_view(entries@),
            idx <= n,
            forall|t: int|
                0 <= t < idx ==> lex_leq(#[trigger] tag_keys(m0)[t], tag@) && tag_keys(m0)[t]
                    != tag@,
            found ==> idx < n && tag_keys(m0)[idx as int] == tag@,
            past ==> idx < n && !lex_leq(tag_keys(m0)[idx as int], tag@),
        decreases n - idx, (if found || past { 0int } else { 1int }),
    {
        let (key, _list) = &entries[idx];
        proof {
            assert(tag_keys(m0)[idx as int] == entries@[idx as int].0@);
        }
        if str_eq(key.as_str(), tag) {
            found = true;
        } else if str_lex_leq(key.as_str(), tag) {
            idx += 1;
        } else {
            past = true;
        }
    }
    if found {
        // the tag is present: its list gains the name, in order
        let (key, mut list) = entries.remove(idx);
        let ghost removed = entries@;
        proof {
            assert(strictly_sorted_strs(strings_view(list@))) by {
                assert(m0[idx as int].1 == strings_view(list@));
            }
        }
        insert_string_sorted(&mut list, name.to_owned());
        entries.insert(idx, (key, list));
        proof {
            let m1 = tag_map_view(entries@);
            let p = (key@, strings_view(list@));
            assert(m1 =~= m0.update(idx as int, p)) by {
                assert(entries@ == removed.insert(idx as int, (key, list)));
                assert forall|t: int| 0 <= t < m1.len() implies m1[t] == m0.update(
                    idx as int,
                    p,
                )[t] by {
                    assert(m1[t] == (entries@[t].0@, strings_view(entries@[t].1@)));
                    if t < idx {
                        assert(entries@[t] == old(entries)@[t]);
                    } else if t == idx {
                        assert(entries@[t] == (key, list));
                    } else {
                        assert(entries@[t] == removed.insert(idx as int, (key, list))[t]);
                        assert(removed[t - 1] == old(entries)@[t]);
                    }
                }
            }
            assert(p.0 == m0[idx as int].0);
            assert(forall|k: int| 0 <= k < idx ==> (#[trigger] m0[k]).0 != p.0) by {
                assert(forall|k: int| 0 <= k < idx ==> tag_keys(m0)[k] == (#[trigger] m0[k]).0);
            }
            assert forall|t: Seq<char>| t != tag@ implies #[trigger] tag_lookup(m1, t)
                == tag_lookup(m0, t) by {
                lemma_tag_lookup_update(m0, idx as int, p, t);
            }
            lemma_tag_lookup_update(m0, idx as int, p, tag@);
            assert(tag_lookup(m0, tag@) == Some(m0[idx as int].1)) by {
                lemma_lookup_found_at(m0, tag@, idx as int);
            }
            assert(tag_map_wf(m1)) by {
                assert(tag_keys(m1) =~= tag_keys(m0));
                assert(forall|k: int|
                    0 <= k < m1.len() && k != idx ==> (#[trigger] m1[k]).1 == m0[k].1);
            }
        }
    } else {
        // the tag is new: a fresh entry keeps the keys strictly sorted
        proof {
            assert(forall|k: int|
                idx <= k < m0.len() ==> !lex_leq(#[trigger] tag_keys(m0)[k], tag@)) by {
                assert forall|k: int| idx <= k < m0.len() implies !lex_leq(
                    #[trigger] tag_keys(m0)[k],
                    tag@,
                ) by {
                    if k > idx {
                        assert(lex_leq(tag_keys(m0)[idx as int], tag_keys(m0)[k]));
                        if lex_leq(tag_keys(m0)[k], tag@) {
                            lemma_lex_trans(tag_keys(m0)[idx as int], tag_keys(m0)[k], tag@);
                        }
                    }
                }
            }
            assert(forall|k: int| 0 <= k < m0.len() ==> (#[trigger] m0[k]).0 != tag@) by {
                assert forall|k: int| 0 <= k < m0.len() implies (#[trigger] m0[k]).0 != tag@ by {
                    assert(tag_keys(m0)[k] == m0[k].0);
                    if k >= idx {
                        if m0[k].0 == tag@ {
                            lemma_lex_refl(tag@);
                        }
                    }
                }
            }
        }
        let mut list: Vec<String> = Vec::new();
        list.push(name.to_owned());
        let ghost lv = strings_view(list@);
        proof {
            assert(lv =~= seq![name@]);
            assert(strictly_sorted_strs(lv));
            assert forall|nm: Seq<char>| #[trigger] lv.contains(nm) <==> (nm == name@) by {
                if lv.contains(nm) {
                    let t = choose|t: int| 0 <= t < lv.len() && lv[t] == nm;
                }
                if nm == name@ {
                    assert(lv[0] == nm);
                }
            }
        }
        entries.insert(idx, (tag.to_owned(), list));
        proof {
            let m1 = tag_map_view(entries@);
            let p = (tag@, lv);
            assert(m1 =~= m0.insert(idx as int, p)) by {
                assert forall|t: int| 0 <= t < m1.len() implies m1[t] == m0.insert(
                    idx as int,
                    p,
                )[t] by {
                    assert(m1[t] == (entries@[t].0@, strings_view(entries@[t].1@)));
                    if t < idx {
                        assert(entries@[t] == old(entries)@[t]);
                    } else if t > idx {
                        assert(entries@[t] == old(entries)@[t - 1]);
                    }
                }
            }
            assert forall|t: Seq<char>| t != tag@ implies #[trigger] tag_lookup(m1, t)
                == tag_lookup(m0, t) by {
                lemma_tag_lookup_insert(m0, idx as int, p, t);
            }
            lemma_tag_lookup_insert(m0, idx as int, p, tag@);
            assert(tag_lookup(m0, tag@) is None) by {
                lemma_tag_lookup_index(m0, tag@);
            }
            assert(tag_map_wf(m1)) by {
                assert(tag_keys(m1) =~= tag_keys(m0).insert(idx as int, tag@));
                let keys1 = tag_keys(m1);
                assert(strictly_sorted_strs(keys1)) by {
                    assert forall|i: int, j: int| 0 <= i < j < keys1.len() implies lex_leq(
                        #[trigger] keys1[i],
                        #[trigger] keys1[j],
                    ) && keys1[i] != keys1[j] by {
                        let ii = if i < idx {
                            i
                        } else {
                            i - 1
                        };
                        let jj = if j < idx {
                            j
                        } else {
                            j - 1
                        };
                        if i == idx {
                            assert(idx <= jj < tag_keys(m0).len());
                            assert(!lex_leq(tag_keys(m0)[jj], tag@));
                            lemma_lex_total(tag@, tag_keys(m0)[jj]);
                        } else if j == idx {
                            assert(lex_leq(tag_keys(m0)[ii], tag@) && tag_keys(m0)[ii] != tag@);
                        } else {
                            assert(lex_leq(tag_keys(m0)[ii], tag_keys(m0)[jj]) && tag_keys(
                                m0,
                            )[ii] != tag_keys(m0)[jj]);
                        }
                    }
                }
                assert(forall|k: int|
                    0 <= k < m1.len() && k != idx ==> (#[trigger] m1[k]).1 == m0[
                        if k < idx {
                            k
                        } else {
                            k - 1
                        }].1);
            }
        }
    }
}

/// The index lists, under every tag, exactly the names the finished
/// manifest prefix lists, plus the walked tag prefix of one definition.
spec fn tag_map_matches_mid(
    m: Seq<(Seq<char>, Seq<Seq<char>>)>,
    defs: Seq<(Seq<char>, DoodadDefinitionView)>,
    tags: Seq<Seq<char>>,
    name: Seq<char>,
) -> bool {
    &&& forall|t: Seq<char>, nm: Seq<char>|
        #[trigger] tag_names(m, t).contains(nm) <==> listed_mid(defs, tags, name, t, nm)
    &&& forall|t: Seq<char>| (#[trigger] tag_lookup(m, t)) matches Some(ns) ==> ns.len() > 0
}

/// The index lists, under every tag, exactly the names the manifest lists
/// for it — each at most once, since the lists are duplicate-free.
pub open spec fn tag_map_matches(
    m: Seq<(Seq<char>, Seq<Seq<char>>)>,
    defs: Seq<(Seq<char>, DoodadDefinitionView)>,
) -> bool {
    &&& forall|t: Seq<char>, nm: Seq<char>|
        #[trigger] tag_names(m, t).contains(nm) <==> listed_under(defs, t, nm)
    &&& forall|t: Seq<char>| (#[trigger] tag_lookup(m, t)) matches Some(ns) ==> ns.len() > 0
}

proof fn lemma_matches_to_mid(
    m: Seq<(Seq<char>, Seq<Seq<char>>)>,
    defs: Seq<(Seq<char>, DoodadDefinitionView)>,
    name: Seq<char>,
)
    requires
        tag_map_matches(m, defs),
    ensures
        tag_map_matches_mid(m, defs, Seq::empty(), name),
{
    assert forall|t: Seq<char>, nm: Seq<char>| #[trigger] tag_names(m, t).contains(nm)
        <==> listed_mid(defs, Seq::empty(), name, t, nm) by {
        assert(!Seq::<Seq<char>>::empty().contains(t));
    }
}

/// One recorded name moves the walked tag prefix forward by one tag.
proof fn lemma_mid_step(
    m0: Seq<(Seq<char>, Seq<Seq<char>>)>,
    m1: Seq<(Seq<char>, Seq<Seq<char>>)>,
    defs: Seq<(Seq<char>, DoodadDefinitionView)>,
    tags: Seq<Seq<char>>,
    j: int,
    name: Seq<char>,
)
    requires
        tag_map_matches_mid(m0, defs, tags.subrange(0, j), name),
        0 <= j < tags.len(),
        forall|t: Seq<char>|
            t != tags[j] ==> #[trigger] tag_lookup(m1, t) == tag_lookup(m0, t),
        tag_lookup(m1, tags[j]) matches Some(ns2) && ns2.len() > 0 && (forall|nm: Seq<char>|
            #[trigger] ns2.contains(nm) <==> (tag_names(m0, tags[j]).contains(nm) || nm == name)),
    ensures
        tag_map_matches_mid(m1, defs, tags.subrange(0, j + 1), name),
{
    assert(tags.subrange(0, j + 1) =~= tags.subrange(0, j).push(tags[j]));
    assert forall|t: Seq<char>, nm: Seq<char>| #[trigger] tag_names(m1, t).contains(nm)
        <==> listed_mid(defs, tags.subrange(0, j + 1), name, t, nm) by {
        lemma_push_contains(tags.subrange(0, j), tags[j], t);
        if t == tags[j] {
            assert(tag_names(m1, t).contains(nm) <==> (tag_names(m0, t).contains(nm) || nm
                == name));
            assert(tag_names(m0, t).contains(nm) <==> listed_mid(
                defs,
                tags.subrange(0, j),
                name,
                t,
                nm,
            ));
            assert(tags.subrange(0, j + 1).contains(t));
        } else {
            assert(tag_names(m1, t) == tag_names(m0, t));
            assert(tag_names(m0, t).contains(nm) <==> listed_mid(
                defs,
                tags.subrange(0, j),
                name,
                t,
                nm,
            ));
        }
    }
    assert forall|t: Seq<char>|
        ((#[trigger] tag_lookup(m1, t)) matches Some(ns) ==> ns.len() > 0) by {
        if t != tags[j] {
            assert(tag_lookup(m1, t) == tag_lookup(m0, t));
        }
    }
}

/// Builds the tag index from the manifest: every doodad name is listed
/// under each of its tags and under the synthetic all-doodads tag, once;
/// the tag keys come out strictly sorted and each tag's name list strictly
/// sorted, so the whole index is determined exactly.
#[verifier::rlimit(100)]
#[verifier::spinoff_prover]
pub fn build_doodad_tag_map(manifest: &DoodadManifest) -> (r: DoodadTagMap)
    ensures
        tag_map_wf(r@),
        tag_map_matches(r@, defs_view(manifest.doodad_definitions@)),
{
    let ghost defs = defs_view(manifest.doodad_definitions@);
    let mut entries: Vec<(String, Vec<String>)> = Vec::new();
    proof {
        assert(tag_map_view(entries@) =~= Seq::<(Seq<char>, Seq<Seq<char>>)>::empty());
        assert(tag_map_matches(tag_map_view(entries@), defs.subrange(0, 0))) by {
            assert(defs.subrange(0, 0) =~= Seq::<(Seq<char>, DoodadDefinitionView)>::empty());
            assert forall|t: Seq<char>, nm: Seq<char>|
                !(#[trigger] tag_names(tag_map_view(entries@), t).contains(nm)) && !listed_under(
                defs.subrange(0, 0),
                t,
                nm,
            ) by {
                assert(tag_lookup(tag_map_view(entries@), t) is None);
                assert(!Seq::<Seq<char>>::empty().contains(nm));
            }
        }
    }
    let n = manifest.doodad_definitions.len();
    let mut k: usize = 0;
    while k < n
        invariant
            n == manifest.doodad_definitions@.len(),
            defs == defs_view(manifest.doodad_definitions@),
            defs.len() == n,
            k <= n,
            tag_map_wf(tag_map_view(entries@)),
            tag_map_matches(tag_map_view(entries@), defs.subrange(0, k as int)),
        decreases n - k,
    {
        let ghost prefix = defs.subrange(0, k as int);
        let (name, def) = &manifest.doodad_definitions[k];
        let ghost dv = defs[k as int].1;
        proof {
            assert(defs[k as int] == (name@, def@));
        }
        match &def.tags {
            Some(tag_list) => {
                let ghost tv = def_tags(dv);
                proof {
                    assert(tv == strings_view(tag_list@));
                    lemma_matches_to_mid(tag_map_view(entries@), prefix, name@);
                    assert(tv.subrange(0, 0) =~= Seq::<Seq<char>>::empty());
                }
                let m = tag_list.len();
                let mut j: usize = 0;
                while j < m
                    invariant
                        m == tag_list@.len(),
                        tv == strings_view(tag_list@),
                        tv.len() == m,
                        j <= m,
                        tag_map_wf(tag_map_view(entries@)),
                        tag_map_matches_mid(
                            tag_map_view(entries@),
                            prefix,
                            tv.subrange(0, j as int),
                            name@,
                        ),
                    decreases m - j,
                {
                    let ghost m0 = tag_map_view(entries@);
                    let tag = &tag_list[j];
                    proof {
                        assert(tv[j as int] == tag_list@[j as int]@);
                    }
                    tag_map_insert(&mut entries, tag.as_str(), name.as_str());
                    proof {
                        lemma_mid_step(m0, tag_map_view(entries@), prefix, tv, j as int, name@);
                    }
                    j += 1;
                }
                proof {
                    assert(tv.subrange(0, m as int) =~= tv);
                }
            },
            None => {
                proof {
                    lemma_matches_to_mid(tag_map_view(entries@), prefix, name@);
                    assert(def_tags(dv) =~= Seq::<Seq<char>>::empty());
                }
            },
        }
        // record the doodad under the synthetic tag that lists everything
        let ghost m0 = tag_map_view(entries@);
        tag_map_insert(&mut entries, "all_doodads", name.as_str());
        proof {
            let m1 = tag_map_view(entries@);
            assert(tag_map_matches(m1, defs.subrange(0, k + 1))) by {
                assert(defs.subrange(0, k + 1) =~= prefix.push(defs[k as int]));
                assert forall|t: Seq<char>, nm: Seq<char>| #[trigger] tag_names(m1, t).contains(
                    nm,
                ) <==> listed_under(defs.subrange(0, k + 1), t, nm) by {
                    lemma_listed_under_push(prefix, defs[k as int], t, nm);
                    reveal_strlit("all_doodads");
                    if t == all_doodads_tag() {
                        assert(tag_names(m1, t).contains(nm) <==> (tag_names(m0, t).contains(nm)
                            || nm == name@));
                        assert(tag_names(m0, t).contains(nm) <==> listed_mid(
                            prefix,
                            def_tags(dv),
                            name@,
                            t,
                            nm,
                        ));
                    } else {
                        assert(tag_lookup(m1, t) == tag_lookup(m0, t));
                        assert(tag_names(m0, t).contains(nm) <==> listed_mid(
                            prefix,
                            def_tags(dv),
                            name@,
                            t,
                            nm,
                        ));
                    }
                }
                assert forall|t: Seq<char>|
                    ((#[trigger] tag_lookup(m1, t)) matches Some(ns) ==> ns.len() > 0) by {
                    reveal_strlit("all_doodads");
                    if t != all_doodads_tag() {
                        assert(tag_lookup(m1, t) == tag_lookup(m0, t));
                    }
                }
            }
        }
        k += 1;
    }
    proof {
        assert(defs.subrange(0, n as int) =~= defs);
    }
    DoodadTagMap { entries }
}

/// Law: after a rebuild, every doodad name in the manifest appears under
/// the synthetic all-doodads tag; a name appears under a tag exactly when
/// some definition carries the name and lists the tag (or the tag is the
/// all-doodads tag).
pub proof fn lemma_tag_index_complete(
    m: Seq<(Seq<char>, Seq<Seq<char>>)>,
    defs: Seq<(Seq<char>, DoodadDefinitionView)>,
)
    requires
        tag_map_matches(m, defs),
    ensures
        forall|k: int|
            0 <= k < defs.len() ==> tag_lookup(m, all_doodads_tag()) is Some && tag_names(
                m,
                all_doodads_tag(),
            ).contains((#[trigger] defs[k]).0),
        forall|k: int, t: Seq<char>|
            #![trigger def_tags(defs[k].1).contains(t)]
            0 <= k < defs.len() && def_tags(defs[k].1).contains(t) ==> tag_lookup(m, t) is Some
                && tag_names(m, t).contains(defs[k].0),
{
    assert(defs.len() > 0 ==> tag_lookup(m, all_doodads_tag()) is Some) by {
        if defs.len() > 0 {
            let t = all_doodads_tag();
            let nm = defs[0].0;
            assert(listed_under(defs, t, nm)) by {
                assert((#[trigger] defs[0]).0 == nm);
            }
            assert(tag_names(m, t).contains(nm));
            if tag_lookup(m, t) is None {
                assert(tag_names(m, t) == Seq::<Seq<char>>::empty());
            }
        }
    }
    assert forall|k: int| 0 <= k < defs.len() implies tag_lookup(m, all_doodads_tag()) is Some
        && tag_names(m, all_doodads_tag()).contains((#[trigger] defs[k]).0) by {
        let t = all_doodads_tag();
        let nm = defs[k].0;
        assert(listed_under(defs, t, nm));
        assert(tag_names(m, t).contains(nm));
    }
    assert forall|k: int, t: Seq<char>|
        #![trigger def_tags(defs[k].1).contains(t)]
        0 <= k < defs.len() && def_tags(defs[k].1).contains(t) implies tag_lookup(m, t) is Some
        && tag_names(m, t).contains(defs[k].0) by {
        let nm = defs[k].0;
        assert(listed_under(defs, t, nm));
        assert(tag_names(m, t).contains(nm));
        assert(tag_lookup(m, t) is Some) by {
            if tag_lookup(m, t) is None {
                assert(tag_names(m, t) == Seq::<Seq<char>>::empty());
            }
        }
    }
}

/// Law: a name listed under a tag always comes from a manifest entry that
/// carries the name and lists the tag — or the tag is the all-doodads tag.
pub proof fn lemma_tag_index_sound(
    m: Seq<(Seq<char>, Seq<Seq<char>>)>,
    defs: Seq<(Seq<char>, DoodadDefinitionView)>,
    t: Seq<char>,
    nm: Seq<char>,
)
    requires
        tag_map_matches(m, defs),
        tag_lookup(m, t) matches Some(ns) && ns.contains(nm),
    ensures
        listed_under(defs, t, nm),
{
    assert(tag_names(m, t).contains(nm));
}

} // verus!
