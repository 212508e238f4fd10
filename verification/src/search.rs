//! The search for a string in a document, with the path to each place where
//! it stands.

use crate::grammar::holds;
use crate::scanner;
use crate::text::{chars_of, decimal, lemma_texts_push, push_decimal, same_text, string_of, texts};
use crate::value::{items_view, lemma_array_view, lemma_object_view, members_view, Json, Value};
use vstd::prelude::*;
use vstd::string::StringExecFns;

verus! {

/// The first position from `i` on that holds no dot.
pub open spec fn dots_end(s: Seq<char>, i: int) -> int
    decreases s.len() - i,
{
    if holds(s, i, '.') {
        dots_end(s, i + 1)
    } else {
        i
    }
}

/// `s` without the dots at its start.
pub open spec fn trim_dots(s: Seq<char>) -> Seq<char> {
    s.subrange(dots_end(s, 0), s.len() as int)
}

/// The path to the member under `key` of the object at `path`: the two with
/// a dot between them, and no dot at the start.
pub open spec fn member_path(path: Seq<char>, key: Seq<char>) -> Seq<char> {
    trim_dots(path + seq!['.'] + key)
}

/// The path to the element at `index` of the array at `path`: the index in
/// square brackets behind the path.
pub open spec fn element_path(path: Seq<char>, index: nat) -> Seq<char> {
    path + seq!['['] + decimal(index) + seq![']']
}

/// The paths to the strings equal to `target` in `v`, which stands at `path`:
/// depth first, the members of an object in stored order, the elements of an
/// array by index.
pub open spec fn search(v: Json, target: Seq<char>, path: Seq<char>) -> Seq<Seq<char>>
    decreases v, 0nat,
{
    match v {
        Json::String(s) => if s == target {
            seq![path]
        } else {
            Seq::empty()
        },
        Json::Object(ms) => search_members(ms, 0, target, path),
        Json::Array(xs) => search_elements(xs, 0, target, path),
        _ => Seq::empty(),
    }
}

/// The paths found in the members `ms[k..]` of the object at `path`.
pub open spec fn search_members(
    ms: Seq<(Seq<char>, Json)>,
    k: int,
    target: Seq<char>,
    path: Seq<char>,
) -> Seq<Seq<char>>
    decreases ms, ms.len() - k,
{
    if k < 0 || k >= ms.len() {
        Seq::empty()
    } else {
        search(ms[k].1, target, member_path(path, ms[k].0)) + search_members(
            ms,
            k + 1,
            target,
            path,
        )
    }
}

/// The paths found in the elements `xs[k..]` of the array at `path`.
pub open spec fn search_elements(xs: Seq<Json>, k: int, target: Seq<char>, path: Seq<char>) -> Seq<
    Seq<char>,
>
    decreases xs, xs.len() - k,
{
    if k < 0 || k >= xs.len() {
        Seq::empty()
    } else {
        search(xs[k], target, element_path(path, k as nat)) + search_elements(
            xs,
            k + 1,
            target,
            path,
        )
    }
}

/// The path to the member under `key` of the object at `path`.
fn join_member_path(path: &str, key: &str) -> (r: String)
    ensures
        r@ == member_path(path@, key@),
{
    let mut joined = String::from_str(path);
    joined.push('.');
    joined.append(key);
    let s = chars_of(joined.as_str());
    assert(s@ =~= path@ + seq!['.'] + key@);
    let mut i: usize = 0;
    while scanner::holds(&s, i, '.')
        invariant
            0 <= i <= s.len(),
            dots_end(s@, 0) == dots_end(s@, i as int),
        decreases s.len() - i,
    {
        i += 1;
    }
    string_of(&s, i, s.len())
}

/// The path to the element at `index` of the array at `path`.
fn join_element_path(path: &str, index: usize) -> (r: String)
    ensures
        r@ == element_path(path@, index as nat),
{
    let mut joined = String::from_str(path);
    joined.push('[');
    push_decimal(&mut joined, index);
    joined.push(']');
    assert(joined@ =~= element_path(path@, index as nat));
    joined
}

/// Adds to `results` the paths to the strings equal to `target_value` in
/// `json`, which stands at `path`.
#[verifier::loop_isolation(false)]
pub fn search_recursive(json: &Value, target_value: &str, results: &mut Vec<String>, path: String)
    ensures
        texts(final(results)@) == texts(old(results)@) + search(json@, target_value@, path@),
    decreases json,
{
    match json {
        Value::String(s) => {
            if same_text(s.as_str(), target_value) {
                proof {
                    lemma_texts_push(results@, path);
                }
                results.push(path);
                assert(texts(old(results)@).push(path@) =~= texts(old(results)@) + seq![path@]);
            } else {
                assert(texts(old(results)@) + Seq::<Seq<char>>::empty() =~= texts(old(results)@));
            }
        },
        Value::Object(members) => {
            proof {
                lemma_object_view(*members);
            }
            let ghost ms = members_view(members@);
            let mut k: usize = 0;
            assert(texts(results@) + search_members(ms, 0, target_value@, path@) =~= texts(
                old(results)@,
            ) + search_members(ms, 0, target_value@, path@));
            while k < members.len()
                invariant
                    0 <= k <= members.len(),
                    texts(results@) + search_members(ms, k as int, target_value@, path@) == texts(
                        old(results)@,
                    ) + search_members(ms, 0, target_value@, path@),
                decreases members.len() - k,
            {
                let ghost before = texts(results@);
                let new_path = join_member_path(path.as_str(), members[k].0.as_str());
                search_recursive(&members[k].1, target_value, results, new_path);
                assert(before + search(ms[k as int].1, target_value@, new_path@) + search_members(
                    ms,
                    k + 1,
                    target_value@,
                    path@,
                ) =~= before + search_members(ms, k as int, target_value@, path@));
                k += 1;
            }
            assert(texts(results@) + Seq::<Seq<char>>::empty() =~= texts(results@));
        },
        Value::Array(items) => {
            proof {
                lemma_array_view(*items);
            }
            let ghost xs = items_view(items@);
            let mut k: usize = 0;
            assert(texts(results@) + search_elements(xs, 0, target_value@, path@) =~= texts(
                old(results)@,
            ) + search_elements(xs, 0, target_value@, path@));
            while k < items.len()
                invariant
                    0 <= k <= items.len(),
                    texts(results@) + search_elements(xs, k as int, target_value@, path@)
                        == texts(old(results)@) + search_elements(xs, 0, target_value@, path@),
                decreases items.len() - k,
            {
                let ghost before = texts(results@);
                let new_path = join_element_path(path.as_str(), k);
                search_recursive(&items[k], target_value, results, new_path);
                assert(before + search(xs[k as int], target_value@, new_path@) + search_elements(
                    xs,
                    k + 1,
                    target_value@,
                    path@,
                ) =~= before + search_elements(xs, k as int, target_value@, path@));
                k += 1;
            }
            assert(texts(results@) + Seq::<Seq<char>>::empty() =~= texts(results@));
        },
        _ => {
            assert(texts(old(results)@) + Seq::<Seq<char>>::empty() =~= texts(old(results)@));
        },
    }
}

/// The paths to the strings equal to `target_value` in `json`, in the order
/// of a depth-first walk.
pub fn search_by_value(json: &Value, target_value: &str) -> (r: Vec<String>)
    ensures
        texts(r@) == search(json@, target_value@, Seq::empty()),
{
    let mut results: Vec<String> = Vec::new();
    assert(texts(results@) =~= Seq::<Seq<char>>::empty());
    search_recursive(json, target_value, &mut results, String::new());
    assert(Seq::<Seq<char>>::empty() + search(json@, target_value@, Seq::empty()) =~= search(
        json@,
        target_value@,
        Seq::empty(),
    ));
    results
}

} // verus!
