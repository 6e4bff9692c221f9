//! Region ids as text: comparing them and viewing lists of them.

use vstd::prelude::*;

verus! {

/// The ids held by a list of string slices.
pub open spec fn ids_view(list: Seq<&str>) -> Seq<Seq<char>> {
    Seq::new(list.len(), |i: int| list[i]@)
}

/// The ids held by a list of owned strings.
pub open spec fn strings_view(list: Seq<String>) -> Seq<Seq<char>> {
    Seq::new(list.len(), |i: int| list[i]@)
}

/// Appending a slice appends the id it holds.
pub(crate) proof fn lemma_ids_view_push(list: Seq<&str>, s: &str)
    ensures
        ids_view(list.push(s)) == ids_view(list).push(s@),
{
    assert(ids_view(list.push(s)) =~= ids_view(list).push(s@));
}

/// Whether two string slices hold the same text.
///
/// The slices are compared byte by byte; two texts are equal exactly when
/// their UTF-8 encodings are.
pub fn str_eq(a: &str, b: &str) -> (r: bool)
    ensures
        r == (a@ == b@),
{
    let x = a.as_bytes();
    let y = b.as_bytes();
    proof {
        vstd::utf8::encode_utf8_decode_utf8(a@);
        vstd::utf8::encode_utf8_decode_utf8(b@);
    }
    if x.len() != y.len() {
        return false;
    }
    let mut i: usize = 0;
    while i < x.len()
        invariant
            x@ == vstd::utf8::encode_utf8(a@),
            y@ == vstd::utf8::encode_utf8(b@),
            x@.len() == y@.len(),
            i <= x@.len(),
            forall|k: int| 0 <= k < i ==> x@[k] == y@[k],
        decreases x@.len() - i,
    {
        if x[i] != y[i] {
            return false;
        }
        i += 1;
    }
    assert(x@ =~= y@);
    true
}

/// Whether `id` occurs in `list`.
pub fn contains_str(list: &[&str], id: &str) -> (r: bool)
    ensures
        r == ids_view(list@).contains(id@),
{
    let mut i: usize = 0;
    while i < list.len()
        invariant
            i <= list@.len(),
            forall|k: int| 0 <= k < i ==> ids_view(list@)[k] != id@,
        decreases list@.len() - i,
    {
        if str_eq(list[i], id) {
            assert(ids_view(list@)[i as int] == id@);
            return true;
        }
        i += 1;
    }
    false
}

/// Whether `id` occurs in `list`.
pub fn contains_string(list: &[String], id: &str) -> (r: bool)
    ensures
        r == strings_view(list@).contains(id@),
{
    let mut i: usize = 0;
    while i < list.len()
        invariant
            i <= list@.len(),
            forall|k: int| 0 <= k < i ==> strings_view(list@)[k] != id@,
        decreases list@.len() - i,
    {
        if str_eq(list[i].as_str(), id) {
            assert(strings_view(list@)[i as int] == id@);
            return true;
        }
        i += 1;
    }
    false
}

/// Appends `id` to `list` unless it occurs there already.
pub(crate) fn push_new<'a>(list: &mut Vec<&'a str>, id: &'a str)
    requires
        ids_view(old(list)@).no_duplicates(),
    ensures
        ids_view(final(list)@).no_duplicates(),
        forall|x: Seq<char>|
            ids_view(final(list)@).contains(x) <==> ids_view(old(list)@).contains(x) || x == id@,
{
    if !contains_str(list.as_slice(), id) {
        proof {
            lemma_ids_view_push(list@, id);
        }
        list.push(id);
        proof {
            let before = ids_view(old(list)@);
            let after = ids_view(list@);
            assert(after == before.push(id@));
            assert forall|x: Seq<char>| after.contains(x) <==> before.contains(x) || x == id@ by {
                if before.contains(x) {
                    let k = choose|k: int| 0 <= k < before.len() && before[k] == x;
                    assert(after[k] == x);
                }
                if x == id@ {
                    assert(after[before.len() as int] == x);
                }
            }
        }
    }
}

/// Appends to `list` each id of `more` that does not occur in it yet.
pub(crate) fn extend_new<'a>(list: &mut Vec<&'a str>, more: &Vec<&'a str>)
    requires
        ids_view(old(list)@).no_duplicates(),
    ensures
        ids_view(final(list)@).no_duplicates(),
        forall|x: Seq<char>|
            ids_view(final(list)@).contains(x) <==> ids_view(old(list)@).contains(x) || ids_view(
                more@,
            ).contains(x),
{
    let mut i: usize = 0;
    while i < more.len()
        invariant
            i <= more@.len(),
            ids_view(list@).no_duplicates(),
            forall|x: Seq<char>|
                ids_view(list@).contains(x) <==> ids_view(old(list)@).contains(x) || ids_view(
                    more@,
                ).take(i as int).contains(x),
        decreases more@.len() - i,
    {
        push_new(list, more[i]);
        proof {
            let seen = ids_view(more@).take(i as int);
            let next = ids_view(more@).take(i + 1);
            assert(next == seen.push(more@[i as int]@));
            assert forall|x: Seq<char>|
                ids_view(list@).contains(x) <==> ids_view(old(list)@).contains(x) || next.contains(
                    x,
                ) by {
                if seen.contains(x) {
                    let k = choose|k: int| 0 <= k < seen.len() && seen[k] == x;
                    assert(next[k] == x);
                }
                if x == more@[i as int]@ {
                    assert(next[i as int] == x);
                }
                if next.contains(x) {
                    let k = choose|k: int| 0 <= k < next.len() && next[k] == x;
                    if k < i {
                        assert(seen[k] == x);
                    }
                }
            }
        }
        i += 1;
    }
    assert(ids_view(more@).take(i as int) == ids_view(more@));
}

/// Appends to `list` each id of `more` that does not occur in it yet.
pub(crate) fn extend_new_strings<'a>(list: &mut Vec<&'a str>, more: &'a Vec<String>)
    requires
        ids_view(old(list)@).no_duplicates(),
    ensures
        ids_view(final(list)@).no_duplicates(),
        forall|x: Seq<char>|
            ids_view(final(list)@).contains(x) <==> ids_view(old(list)@).contains(x)
                || strings_view(more@).contains(x),
{
    let mut i: usize = 0;
    while i < more.len()
        invariant
            i <= more@.len(),
            ids_view(list@).no_duplicates(),
            forall|x: Seq<char>|
                ids_view(list@).contains(x) <==> ids_view(old(list)@).contains(x) || strings_view(
                    more@,
                ).take(i as int).contains(x),
        decreases more@.len() - i,
    {
        push_new(list, more[i].as_str());
        proof {
            let seen = strings_view(more@).take(i as int);
            let next = strings_view(more@).take(i + 1);
            assert(next == seen.push(more@[i as int]@));
            assert forall|x: Seq<char>|
                ids_view(list@).contains(x) <==> ids_view(old(list)@).contains(x) || next.contains(
                    x,
                ) by {
                if seen.contains(x) {
                    let k = choose|k: int| 0 <= k < seen.len() && seen[k] == x;
                    assert(next[k] == x);
                }
                if x == more@[i as int]@ {
                    assert(next[i as int] == x);
                }
                if next.contains(x) {
                    let k = choose|k: int| 0 <= k < next.len() && next[k] == x;
                    if k < i {
                        assert(seen[k] == x);
                    }
                }
            }
        }
        i += 1;
    }
    assert(strings_view(more@).take(i as int) == strings_view(more@));
}

/// The ids of `list` that occur in `keep`, in the order of `list`.
pub(crate) fn retain_contained<'a>(list: &Vec<&'a str>, keep: &[String]) -> (r: Vec<&'a str>)
    requires
        ids_view(list@).no_duplicates(),
    ensures
        ids_view(r@).no_duplicates(),
        forall|x: Seq<char>|
            ids_view(r@).contains(x) <==> ids_view(list@).contains(x) && strings_view(
                keep@,
            ).contains(x),
{
    let mut kept: Vec<&'a str> = Vec::new();
    let mut i: usize = 0;
    while i < list.len()
        invariant
            i <= list@.len(),
            ids_view(list@).no_duplicates(),
            ids_view(kept@).no_duplicates(),
            forall|x: Seq<char>|
                ids_view(kept@).contains(x) <==> ids_view(list@).take(i as int).contains(x)
                    && strings_view(keep@).contains(x),
        decreases list@.len() - i,
    {
        let id: &'a str = list[i];
        proof {
            let seen = ids_view(list@).take(i as int);
            let next = ids_view(list@).take(i + 1);
            assert(next == seen.push(id@));
            assert(!seen.contains(id@)) by {
                if seen.contains(id@) {
                    let k = choose|k: int| 0 <= k < seen.len() && seen[k] == id@;
                    assert(ids_view(list@)[k] == ids_view(list@)[i as int]);
                }
            }
            assert forall|x: Seq<char>| next.contains(x) <==> seen.contains(x) || x == id@ by {
                if seen.contains(x) {
                    let k = choose|k: int| 0 <= k < seen.len() && seen[k] == x;
                    assert(next[k] == x);
                }
                if x == id@ {
                    assert(next[i as int] == x);
                }
                if next.contains(x) {
                    let k = choose|k: int| 0 <= k < next.len() && next[k] == x;
                    if k < i {
                        assert(seen[k] == x);
                    }
                }
            }
        }
        if contains_string(keep, id) {
            let ghost before = ids_view(kept@);
            proof {
                lemma_ids_view_push(kept@, id);
            }
            kept.push(id);
            proof {
                let after = ids_view(kept@);
                assert(!before.contains(id@));
                assert forall|x: Seq<char>| after.contains(x) <==> before.contains(x) || x
                    == id@ by {
                    if before.contains(x) {
                        let k = choose|k: int| 0 <= k < before.len() && before[k] == x;
                        assert(after[k] == x);
                    }
                    if x == id@ {
                        assert(after[before.len() as int] == x);
                    }
                }
                assert forall|a: int, b: int| 0 <= a < after.len() && 0 <= b < after.len() && a
                    != b implies after[a] != after[b] by {
                    if a == before.len() {
                        assert(before[b] == after[b]);
                    } else if b == before.len() {
                        assert(before[a] == after[a]);
                    } else {
                        assert(before[a] == after[a] && before[b] == after[b]);
                    }
                }
            }
        }
        i += 1;
    }
    assert(ids_view(list@).take(i as int) == ids_view(list@));
    kept
}

} // verus!
