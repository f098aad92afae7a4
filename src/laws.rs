//! Properties that relate several operations, stated over the views that the
//! operations' own contracts use and proved from them.
use vstd::prelude::*;
use crate::validate::{CustomError, is_letter, is_valid_word, is_error_for, normalize};
use crate::trie::{node_set, normalized_set, prefix_of_some, view_set, distinct_from};
use crate::validate::views;

verus! {

/// Adding a valid word (`Trie::add_words` on `seq![w]`) stores its case-folded
/// form, so that `does_word_exist(w)` holds after it; the word count grows by one
/// the first time the word is added and stays the same when it is added again.
pub proof fn law_add_word_counts(before: Set<Seq<char>>, w: String)
    requires
        before.finite(),
        is_valid_word(w@),
    ensures
        ({
            let q = normalize(w@);
            let after = before.union(normalized_set(seq![w]));
            &&& after.contains(q)
            &&& after.finite()
            &&& after.len() == before.len() + if before.contains(q) { 0int } else { 1int }
            &&& after.union(normalized_set(seq![w])) == after
        }),
{
    let q = normalize(w@);
    assert(normalized_set(seq![w]) =~= set![q]) by {
        assert forall|x: Seq<char>| #[trigger] normalized_set(seq![w]).contains(x) implies x == q by {
            let k = choose|k: int| 0 <= k < 1 && x == normalize((#[trigger] seq![w][k])@);
        }
        assert(seq![w][0] == w);
    }
    assert(before.union(set![q]) =~= before.insert(q));
    assert(before.insert(q).union(set![q]) =~= before.insert(q));
}

/// Deleting a word (`Trie::delete_word`) leaves it absent. The nodes removed are
/// exactly the prefixes of the word that no remaining word needs: every prefix
/// of a remaining word keeps its node, and the node count drops by the number
/// of nodes that became unreachable.
pub proof fn law_delete_word_nodes(before: Set<Seq<char>>, w: String)
    requires
        before.finite(),
        node_set(before).finite(),
        is_valid_word(w@),
    ensures
        ({
            let q = normalize(w@);
            let after = before.remove(q);
            let gone = node_set(before).filter(|p: Seq<char>| !prefix_of_some(after, p));
            &&& !after.contains(q)
            &&& node_set(after) == node_set(before).difference(gone)
            &&& forall|v: Seq<char>, k: int|
                after.contains(v) && 0 < k <= v.len() ==> #[trigger] node_set(after).contains(v.take(k))
            &&& forall|p: Seq<char>| #[trigger] gone.contains(p) ==> q.len() >= p.len() && q.take(p.len() as int) == p
            &&& node_set(after).len() == node_set(before).len() - gone.len()
        }),
{
    let q = normalize(w@);
    let after = before.remove(q);
    let gone = node_set(before).filter(|p: Seq<char>| !prefix_of_some(after, p));
    assert forall|p: Seq<char>| #[trigger] node_set(after).contains(p) == node_set(before).difference(gone).contains(p) by {
        if node_set(after).contains(p) {
            let v = choose|v: Seq<char>| #[trigger] after.contains(v) && p.len() <= v.len() && v.take(p.len() as int) == p;
            assert(before.contains(v));
            assert(prefix_of_some(after, p));
        }
        if node_set(before).difference(gone).contains(p) {
            let v = choose|v: Seq<char>| #[trigger] after.contains(v) && p.len() <= v.len() && v.take(p.len() as int) == p;
        }
    }
    assert(node_set(after) =~= node_set(before).difference(gone));
    assert forall|v: Seq<char>, k: int| after.contains(v) && 0 < k <= v.len() implies #[trigger] node_set(after).contains(v.take(k)) by {
        assert(v.take(k).len() <= v.len() && v.take(k as int).len() == k);
        assert(v.take(k).take(k) =~= v.take(k));
        assert(v.take(k as int) =~= v.take(k).take(k));
        assert(after.contains(v) && v.take(k).len() <= v.len() && v.take(v.take(k).len() as int) == v.take(k));
    }
    assert forall|p: Seq<char>| #[trigger] gone.contains(p) implies q.len() >= p.len() && q.take(p.len() as int) == p by {
        let v = choose|v: Seq<char>| #[trigger] before.contains(v) && p.len() <= v.len() && v.take(p.len() as int) == p;
        if v != q {
            assert(after.contains(v));
        }
    }
    vstd::set_lib::lemma_len_subset(gone, node_set(before));
    assert(node_set(before).difference(gone) + gone =~= node_set(before));
    vstd::set_lib::lemma_len_difference(node_set(before), gone);
    vstd::set_lib::lemma_set_disjoint_lens(node_set(before).difference(gone), gone);
}

/// Deleting a word that is not stored (`Trie::delete_word` reporting `false`)
/// changes nothing: the words, and with them both counts, stay as they were.
pub proof fn law_delete_absent(before: Set<Seq<char>>, w: String)
    requires
        !before.contains(normalize(w@)),
    ensures
        before.remove(normalize(w@)) == before,
        node_set(before.remove(normalize(w@))) == node_set(before),
{
    assert(before.remove(normalize(w@)) =~= before);
}

/// A batch added to an empty trie (`Trie::add_words`) and read back with
/// `Trie::entire_dictionary` gives exactly the case-folded entries of the batch,
/// each of them once.
pub proof fn law_round_trip(list: Seq<String>, dict: Seq<String>)
    requires
        view_set(dict) == Set::<Seq<char>>::empty().union(normalized_set(list)),
        distinct_from(dict, 0),
    ensures
        view_set(dict) == normalized_set(list),
        dict.len() == normalized_set(list).len(),
{
    assert(Set::<Seq<char>>::empty().union(normalized_set(list)) =~= normalized_set(list));
    let vs = views(dict);
    assert(vs.no_duplicates()) by {
        assert forall|i: int, j: int| 0 <= i < vs.len() && 0 <= j < vs.len() && i != j implies vs[i] != vs[j] by {
            if i < j {
                assert(dict[i]@ != dict[j]@);
            } else {
                assert(dict[j]@ != dict[i]@);
            }
        }
    }
    vs.unique_seq_to_set();
    assert(vs.to_set() =~= view_set(dict)) by {
        assert forall|x: Seq<char>| #[trigger] vs.to_set().contains(x) == view_set(dict).contains(x) by {
            if vs.to_set().contains(x) {
                let k = choose|k: int| 0 <= k < vs.len() && vs[k] == x;
                assert(dict[k]@ == x);
            }
            if view_set(dict).contains(x) {
                let k = choose|k: int| 0 <= k < dict.len() && (#[trigger] dict[k])@ == x;
                assert(vs[k] == x);
            }
        }
    }
}

/// A word with a character that is no ASCII letter (a space, a digit, a
/// punctuation mark) is refused with `InvalidCharacter`, naming the first such
/// character and the word as given. The operations that refuse it
/// (`add_words`, `delete_word`) leave the trie as it was.
pub proof fn law_invalid_character(s: Seq<char>, e: CustomError)
    requires
        exists|i: int| 0 <= i < s.len() && !is_letter(#[trigger] s[i]),
        is_error_for(e, s),
    ensures
        e matches CustomError::InvalidCharacter(c, t) && t@ == s && !is_letter(c) && exists|i: int|
            0 <= i < s.len() && s[i] == c && (forall|j: int| 0 <= j < i ==> is_letter(#[trigger] s[j])),
{
}

} // verus!
