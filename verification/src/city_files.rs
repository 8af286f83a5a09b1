//! Which files of a data directory hold city records, and the order they are read in.

use vstd::prelude::*;
use vstd::utf8::encode_utf8;
use crate::schedule::{bytes_before, bytes_less, lemma_bytes_less_asymmetric, lemma_bytes_less_transitive};
use crate::text::{chars_of, texts};

verus! {

/// The name has the extension `json` in the sense of `Path::extension`: it ends in `.json`
/// and the dot is not its first character.
pub open spec fn has_json_extension(name: Seq<char>) -> bool {
    name.len() > 5 && name.skip(name.len() - 5) == seq!['.', 'j', 's', 'o', 'n']
}

/// A file named `name` holds city records: a JSON file other than the excluded one.
pub open spec fn is_city_file(name: Seq<char>, exclude: Option<Seq<char>>) -> bool {
    has_json_extension(name) && exclude != Some(name)
}

/// The excluded name, as text.
pub open spec fn excluded_text(exclude: Option<&str>) -> Option<Seq<char>> {
    match exclude {
        Some(e) => Some(e@),
        None => None,
    }
}

/// The names in the order files are read: by the bytes of their names, as paths of one
/// directory sort.
pub open spec fn sorted_names(names: Seq<Seq<char>>) -> bool {
    forall|i: int, j: int|
        0 <= i < j < names.len() ==> !bytes_less(
            encode_utf8(#[trigger] names[j]),
            encode_utf8(#[trigger] names[i]),
        )
}

/// Whether `name` has the extension `json`.
fn json_extension(name: &str) -> (r: bool)
    ensures
        r == has_json_extension(name@),
{
    let c = chars_of(name);
    let n = c.len();
    if n <= 5 {
        return false;
    }
    let r = c[n - 5] == '.' && c[n - 4] == 'j' && c[n - 3] == 's' && c[n - 2] == 'o' && c[n - 1]
        == 'n';
    assert(r <==> c@.skip(n - 5) == seq!['.', 'j', 's', 'o', 'n']) by {
        if r {
            assert(c@.skip(n - 5) =~= seq!['.', 'j', 's', 'o', 'n']);
        } else if c@.skip(n - 5) == seq!['.', 'j', 's', 'o', 'n'] {
            assert(c@.skip(n - 5)[0] == c@[n - 5]);
            assert(c@.skip(n - 5)[1] == c@[n - 4]);
            assert(c@.skip(n - 5)[2] == c@[n - 3]);
            assert(c@.skip(n - 5)[3] == c@[n - 2]);
            assert(c@.skip(n - 5)[4] == c@[n - 1]);
        }
    }
    r
}

/// The names of the regular files of a directory that hold city records (JSON files other
/// than `exclude_name`), sorted by their bytes: the files in the order they are read.
pub fn city_file_names(names: &Vec<String>, exclude_name: Option<&str>) -> (r: Vec<String>)
    ensures
        texts(r@).to_multiset() == texts(names@).filter(
            |n: Seq<char>| is_city_file(n, excluded_text(exclude_name)),
        ).to_multiset(),
        sorted_names(texts(r@)),
{
    let ghost exclude = excluded_text(exclude_name);
    let ghost pred = |n: Seq<char>| is_city_file(n, exclude);
    let ghost all = texts(names@);
    let mut r: Vec<String> = Vec::new();
    let mut i: usize = 0;
    assert(all.take(0) =~= Seq::<Seq<char>>::empty());
    proof {
        reveal(Seq::filter);
        assert(texts(r@) =~= Seq::<Seq<char>>::empty());
    }
    while i < names.len()
        invariant
            i <= names@.len(),
            all == texts(names@),
            exclude == excluded_text(exclude_name),
            pred == (|n: Seq<char>| is_city_file(n, exclude)),
            texts(r@).to_multiset() == all.take(i as int).filter(pred).to_multiset(),
            sorted_names(texts(r@)),
        decreases names@.len() - i,
    {
        let name = &names[i];
        assert(all.take(i + 1) =~= all.take(i as int).push(name@));
        proof {
            all.take(i as int).lemma_filter_push(name@, pred);
        }
        let excluded = match exclude_name {
            Some(e) => *name == e.to_owned(),
            None => false,
        };
        assert(excluded == (exclude == Some(name@)));
        let listed = json_extension(name.as_str()) && !excluded;
        assert(listed == pred(name@));
        if listed {
            let ghost before = texts(r@);
            let mut p: usize = 0;
            while p < r.len() && !bytes_before(name.as_str().as_bytes(), r[p].as_str().as_bytes())
                invariant
                    before == texts(r@),
                    p <= r@.len(),
                    forall|q: int|
                        0 <= q < p ==> !bytes_less(encode_utf8(name@), encode_utf8(#[trigger] before[q])),
                decreases r@.len() - p,
            {
                p = p + 1;
            }
            let copy = name.clone();
            r.insert(p, copy);
            proof {
                let after = texts(r@);
                assert(after =~= before.insert(p as int, name@));
                vstd::seq_lib::to_multiset_insert(before, p as int, name@);
                vstd::seq_lib::to_multiset_build(all.take(i as int).filter(pred), name@);
                let x = encode_utf8(name@);
                assert forall|a: int, b: int| 0 <= a < b < after.len() implies !bytes_less(
                    encode_utf8(#[trigger] after[b]),
                    encode_utf8(#[trigger] after[a]),
                ) by {
                    if a < p && b == p {
                    } else if a == p && b > p {
                        let y = encode_utf8(before[b - 1]);
                        let z = encode_utf8(before[p as int]);
                        if bytes_less(y, x) {
                            if b - 1 == p {
                                lemma_bytes_less_asymmetric(x, z);
                            } else {
                                lemma_bytes_less_transitive(y, x, z);
                            }
                        }
                    } else if a < p && b > p {
                        assert(after[a] == before[a]);
                        assert(after[b] == before[b - 1]);
                    } else if b < p {
                        assert(after[a] == before[a]);
                        assert(after[b] == before[b]);
                    } else {
                        assert(after[a] == before[a - 1]);
                        assert(after[b] == before[b - 1]);
                    }
                }
            }
        }
        i = i + 1;
    }
    assert(all.take(names@.len() as int) =~= all);
    r
}

} // verus!
