//! A registry of independent tries, each under an instance id of its own.
use std::collections::HashMap;
use vstd::prelude::*;
use crate::validate::{CustomError, is_batch_error, is_error_for, is_valid_word, all_letters, views, normalize, lines};
use crate::trie::{Trie, normalized_set, node_set, total_len, prefix_of_some, completions, view_set};

verus! {

/// Relies on uuid's `Uuid::new_v4`: a random version 4 id, as its 128 bits.
/// Nothing is promised of its value.
#[verifier::external_body]
fn new_instance_id() -> (r: u128) {
    uuid::Uuid::new_v4().as_u128()
}

/// The number of distinct ids.
pub open spec fn id_space() -> int {
    u128::MAX as int + 1
}

/// The id after `id`, wrapping round at the top.
pub open spec fn next_id(id: u128) -> u128 {
    if id == u128::MAX {
        0
    } else {
        (id + 1) as u128
    }
}

/// The id reached from `c` after `j` steps of `next_id`.
pub open spec fn step_id(c: u128, j: nat) -> u128
    decreases j,
{
    if j == 0 {
        c
    } else {
        next_id(step_id(c, (j - 1) as nat))
    }
}

proof fn lemma_step_id_value(c: u128, j: nat)
    ensures
        step_id(c, j) as int == (c as int + j) % id_space(),
    decreases j,
{
    if j > 0 {
        lemma_step_id_value(c, (j - 1) as nat);
        vstd::arithmetic::div_mod::lemma_add_mod_noop(c as int + (j - 1), 1, id_space());
        vstd::arithmetic::div_mod::lemma_small_mod(1, id_space() as nat);
        let x = step_id(c, (j - 1) as nat) as int;
        if x == u128::MAX {
            vstd::arithmetic::div_mod::lemma_mod_self_0(id_space());
        } else {
            vstd::arithmetic::div_mod::lemma_small_mod((x + 1) as nat, id_space() as nat);
        }
    } else {
        vstd::arithmetic::div_mod::lemma_small_mod(c as nat, id_space() as nat);
    }
}

/// The first `n` ids from `c` on.
pub open spec fn ids_from(c: u128, n: nat) -> Set<u128> {
    Set::new(|x: u128| exists|j: nat| j < n && x == step_id(c, j))
}

proof fn lemma_ids_from_len(c: u128, n: nat)
    requires
        n <= usize::MAX as nat + 1,
    ensures
        ids_from(c, n).finite(),
        ids_from(c, n).len() == n,
    decreases n,
{
    if n == 0 {
        assert(ids_from(c, 0) =~= Set::empty());
    } else {
        let m = (n - 1) as nat;
        lemma_ids_from_len(c, m);
        assert(ids_from(c, n) =~= ids_from(c, m).insert(step_id(c, m)));
        if ids_from(c, m).contains(step_id(c, m)) {
            let j = choose|j: nat| j < m && step_id(c, m) == step_id(c, j);
            lemma_step_id_value(c, j);
            lemma_step_id_value(c, m);
            assert(false) by (nonlinear_arith)
                requires
                    (c as int + j) % id_space() == (c as int + m)
                        % id_space(),
                    j < m,
                    m <= usize::MAX,
                    0 <= c,
            ;
        }
    }
}

/// The tries of a process, each reachable through its instance id.
pub struct TrieController {
    trie_map: HashMap<u128, Trie>,
}

impl View for TrieController {
    type V = Map<u128, Set<Seq<char>>>;

    /// For each live instance id, the words of its trie.
    closed spec fn view(&self) -> Map<u128, Set<Seq<char>>> {
        self.trie_map@.map_values(|t: Trie| t@)
    }
}

impl TrieController {
    /// Every registered trie is well formed.
    pub closed spec fn wf(&self) -> bool {
        forall|id: u128| #[trigger] self.trie_map@.contains_key(id) ==> self.trie_map@[id].wf()
    }

    /// The trie of instance `id`.
    pub closed spec fn trie(&self, id: u128) -> Trie {
        self.trie_map@[id]
    }

    /// An id that no live instance has: a random one, or, should that be
    /// taken, the first free id after it.
    fn fresh_id(&self) -> (r: u128)
        ensures
            !self@.contains_key(r),
    {
        proof {
            vstd::std_specs::hash::axiom_spec_hash_map_len(&self.trie_map);
        }
        let start = new_instance_id();
        let mut id = start;
        let mut n: usize = 0;
        while self.trie_map.contains_key(&id)
            invariant
                self.trie_map@.len() <= usize::MAX,
                id == step_id(start, n as nat),
                n <= self.trie_map@.len(),
                ids_from(start, n as nat).subset_of(self.trie_map@.dom()),
            decreases self.trie_map@.len() - n,
        {
            proof {
                assert(ids_from(start, (n + 1) as nat) =~= ids_from(start, n as nat).insert(id));
                lemma_ids_from_len(start, (n + 1) as nat);
                vstd::set_lib::lemma_len_subset(ids_from(start, (n + 1) as nat), self.trie_map@.dom());
            }
            id = if id == u128::MAX { 0 } else { id + 1 };
            n = n + 1;
        }
        id
    }

    /// An empty registry.
    pub fn empty() -> (r: TrieController)
        ensures
            r.wf(),
            r@ == Map::<u128, Set<Seq<char>>>::empty(),
    {
        let r = TrieController { trie_map: HashMap::new() };
        assert(r@ =~= Map::<u128, Set<Seq<char>>>::empty());
        r
    }

    /// Stores `t` under `id`.
    fn put(&mut self, id: u128, t: Trie)
        requires
            old(self).wf(),
            t.wf(),
        ensures
            final(self).wf(),
            final(self)@ == old(self)@.insert(id, t@),
            final(self).trie(id) == t,
            forall|j: u128| j != id && #[trigger] old(self)@.contains_key(j) ==> final(self).trie(j) == old(self).trie(j),
    {
        self.trie_map.insert(id, t);
        assert(self@ =~= old(self)@.insert(id, t@));
    }

    /// Takes the trie of `id` out of the registry.
    fn take(&mut self, id: u128) -> (r: Option<Trie>)
        requires
            old(self).wf(),
        ensures
            final(self).wf(),
            final(self)@ == old(self)@.remove(id),
            r is Some <==> old(self)@.contains_key(id),
            r is Some ==> r->0 == old(self).trie(id) && r->0.wf(),
            forall|j: u128| j != id && #[trigger] old(self)@.contains_key(j) ==> final(self).trie(j) == old(self).trie(j),
    {
        let r = self.trie_map.remove(&id);
        assert(self@ =~= old(self)@.remove(id));
        r
    }

    /// The trie of `id`, if there is one.
    fn get_trie(&self, id: u128) -> (r: Option<&Trie>)
        requires
            self.wf(),
        ensures
            r is Some <==> self@.contains_key(id),
            r is Some ==> *r->0 == self.trie(id) && r->0.wf() && r->0@ == self@[id],
    {
        self.trie_map.get(&id)
    }

    /// A registry holding one trie, loaded from a word source (one word per
    /// line; `None` for a source that could not be read), and that trie's id.
    pub fn new(file_contents: Option<String>) -> (r: Result<(Self, u128), CustomError>)
        requires
            file_contents is Some ==> file_contents->0@.len() <= u32::MAX,
        ensures
            file_contents is None ==> r is Err && r->Err_0 == CustomError::UnableToOpen,
            file_contents is Some ==> ({
                let ls = lines(file_contents->0@);
                &&& r is Ok <==> (forall|k: int| 0 <= k < ls.len() ==> is_valid_word(#[trigger] ls[k]))
                &&& r is Ok ==> ({
                    let (c, id) = r->Ok_0;
                    &&& c.wf()
                    &&& c@.dom() == set![id]
                    &&& c@[id] == Set::new(|w: Seq<char>| exists|k: int| 0 <= k < ls.len() && w == normalize(#[trigger] ls[k]))
                })
                &&& r is Err ==> is_batch_error(r->Err_0, ls)
            }),
    {
        let ghost ls = lines(file_contents->0@);
        match Trie::new(file_contents) {
            (Ok(mut trie), starting_words) => {
                proof {
                    assert(views(starting_words@) =~= ls.map_values(|w: Seq<char>| normalize(w)));
                    crate::trie::lemma_total_len_normalize(ls);
                    crate::trie::lemma_total_len_lines(file_contents->0@, Seq::empty());
                    assert(node_set(trie@) =~= Set::empty());
                }
                let ghost sw = starting_words@;
                let added = trie.add_words(starting_words);
                proof {
                    assert forall|k: int| 0 <= k < sw.len() implies is_valid_word(#[trigger] sw[k]@) by {
                        assert(is_valid_word(ls[k]));
                        crate::validate::lemma_normalize_valid(ls[k]);
                    }
                    assert(trie@ =~= Set::new(|w: Seq<char>| exists|k: int| 0 <= k < ls.len() && w == normalize(#[trigger] ls[k]))) by {
                        assert forall|w: Seq<char>| #[trigger] normalized_set(sw).contains(w) == (exists|k: int| 0 <= k < ls.len() && w == normalize(#[trigger] ls[k])) by {
                            if normalized_set(sw).contains(w) {
                                let k = choose|k: int| 0 <= k < sw.len() && w == normalize((#[trigger] sw[k])@);
                                crate::validate::lemma_normalize_idem(ls[k]);
                            }
                            if exists|k: int| 0 <= k < ls.len() && w == normalize(#[trigger] ls[k]) {
                                let k = choose|k: int| 0 <= k < ls.len() && w == normalize(#[trigger] ls[k]);
                                crate::validate::lemma_normalize_idem(ls[k]);
                                assert(w == normalize(sw[k]@));
                            }
                        }
                    }
                }
                let mut controller = TrieController::empty();
                let id = controller.fresh_id();
                controller.put(id, trie);
                proof {
                    assert(controller@.dom() =~= set![id]);
                }
                Ok((controller, id))
            },
            (Err(e), _) => Err(e),
        }
    }

    /// Makes a new trie from a batch of words, all or nothing, and registers
    /// it under an id that no live instance has.
    pub fn create(&mut self, words: Vec<String>) -> (r: Result<u128, CustomError>)
        requires
            old(self).wf(),
            total_len(views(words@)) <= u32::MAX,
        ensures
            final(self).wf(),
            r is Ok <==> (forall|k: int| 0 <= k < words@.len() ==> is_valid_word(#[trigger] words@[k]@)),
            r is Ok ==> !old(self)@.contains_key(r->Ok_0) && final(self)@ == old(self)@.insert(
                r->Ok_0,
                normalized_set(words@),
            ),
            r is Err ==> is_batch_error(r->Err_0, views(words@)) && final(self)@ == old(self)@,
    {
        let mut trie = Trie::empty();
        proof {
            assert(node_set(trie@) =~= Set::empty());
        }
        match trie.add_words(words) {
            Ok(_) => {
                let id = self.fresh_id();
                self.put(id, trie);
                proof {
                    assert(Set::<Seq<char>>::empty().union(normalized_set(words@)) =~= normalized_set(words@));
                }
                Ok(id)
            },
            Err(e) => Err(e),
        }
    }

    /// Removes an instance. Returns its word count and node count, or `None`
    /// for an unknown id.
    pub fn destroy(&mut self, id: u128) -> (r: Option<(u32, u32)>)
        requires
            old(self).wf(),
        ensures
            final(self).wf(),
            final(self)@ == old(self)@.remove(id),
            r is Some <==> old(self)@.contains_key(id),
            r is Some ==> ({
                let (w, n) = r->0;
                w == old(self)@[id].len() && n == node_set(old(self)@[id]).len()
            }),
    {
        match self.take(id) {
            Some(t) => Some(t.get_metadata()),
            None => None,
        }
    }

    /// The word count and node count of an instance.
    pub fn metadata(&self, id: u128) -> (r: Option<(u32, u32)>)
        requires
            self.wf(),
        ensures
            r is Some <==> self@.contains_key(id),
            r is Some ==> ({
                let (w, n) = r->0;
                w == self@[id].len() && n == node_set(self@[id]).len()
            }),
    {
        match self.get_trie(id) {
            Some(t) => Some(t.get_metadata()),
            None => None,
        }
    }

    /// Whether a word is stored in an instance; `None` for an unknown id.
    pub fn word_exists(&self, id: u128, word: String) -> (r: Option<Result<bool, CustomError>>)
        requires
            self.wf(),
        ensures
            r is Some <==> self@.contains_key(id),
            r is Some ==> (r->0 is Ok <==> is_valid_word(word@)),
            r is Some && r->0 is Ok ==> r->0->Ok_0 == self@[id].contains(normalize(word@)),
            r is Some && r->0 is Err ==> is_error_for(r->0->Err_0, word@),
    {
        match self.get_trie(id) {
            Some(t) => Some(t.does_word_exist(word)),
            None => None,
        }
    }

    /// Whether a word is a proper prefix, and no word, of an instance's words.
    pub fn prefix_exists(&self, id: u128, word: String) -> (r: Option<Result<bool, CustomError>>)
        requires
            self.wf(),
        ensures
            r is Some <==> self@.contains_key(id),
            r is Some ==> (r->0 is Ok <==> is_valid_word(word@)),
            r is Some && r->0 is Ok ==> r->0->Ok_0 == (prefix_of_some(self@[id], normalize(word@))
                && !self@[id].contains(normalize(word@))),
            r is Some && r->0 is Err ==> is_error_for(r->0->Err_0, word@),
    {
        match self.get_trie(id) {
            Some(t) => Some(t.does_prefix_exist(word)),
            None => None,
        }
    }

    /// The completions of a prefix in an instance.
    pub fn autocomplete(&self, id: u128, prefix: String) -> (r: Option<Result<Vec<String>, CustomError>>)
        requires
            self.wf(),
        ensures
            r is Some <==> self@.contains_key(id),
            r is Some ==> (r->0 is Ok <==> all_letters(prefix@)),
            r is Some && r->0 is Ok ==> view_set(r->0->Ok_0@) == completions(self@[id], normalize(prefix@)),
            r is Some && r->0 is Err ==> is_error_for(r->0->Err_0, prefix@),
    {
        match self.get_trie(id) {
            Some(t) => Some(t.autocomplete(prefix)),
            None => None,
        }
    }

    /// Adds a batch of words to an instance, all or nothing.
    pub fn add_words(&mut self, id: u128, words: Vec<String>) -> (r: Option<Result<bool, CustomError>>)
        requires
            old(self).wf(),
            old(self)@.contains_key(id) ==> node_set(old(self)@[id]).len() + total_len(views(words@)) <= u32::MAX,
        ensures
            final(self).wf(),
            r is Some <==> old(self)@.contains_key(id),
            r is None ==> final(self)@ == old(self)@,
            r is Some ==> (r->0 is Ok <==> (forall|k: int| 0 <= k < words@.len() ==> is_valid_word(#[trigger] words@[k]@))),
            r is Some && r->0 is Ok ==> final(self)@ == old(self)@.insert(id, old(self)@[id].union(normalized_set(words@))),
            r is Some && r->0 is Err ==> is_batch_error(r->0->Err_0, views(words@)) && final(self)@ == old(self)@,
    {
        match self.take(id) {
            Some(mut t) => {
                let r = t.add_words(words);
                self.put(id, t);
                proof {
                    if r is Err {
                        assert(old(self)@.remove(id).insert(id, old(self)@[id]) =~= old(self)@);
                    } else {
                        assert(old(self)@.remove(id).insert(id, t@) =~= old(self)@.insert(id, t@));
                    }
                }
                Some(r)
            },
            None => {
                proof {
                    assert(old(self)@.remove(id) =~= old(self)@);
                }
                None
            },
        }
    }

    /// Deletes a word from an instance. Returns whether it was stored.
    pub fn delete_word(&mut self, id: u128, word: String) -> (r: Option<Result<bool, CustomError>>)
        requires
            old(self).wf(),
        ensures
            final(self).wf(),
            r is Some <==> old(self)@.contains_key(id),
            r is None ==> final(self)@ == old(self)@,
            r is Some ==> (r->0 is Ok <==> is_valid_word(word@)),
            r is Some && r->0 is Ok ==> r->0->Ok_0 == old(self)@[id].contains(normalize(word@))
                && final(self)@ == old(self)@.insert(id, old(self)@[id].remove(normalize(word@))),
            r is Some && r->0 is Err ==> is_error_for(r->0->Err_0, word@) && final(self)@ == old(self)@,
    {
        match self.take(id) {
            Some(mut t) => {
                let r = t.delete_word(word);
                self.put(id, t);
                proof {
                    if r is Err {
                        assert(old(self)@.remove(id).insert(id, old(self)@[id]) =~= old(self)@);
                    } else {
                        assert(old(self)@.remove(id).insert(id, t@) =~= old(self)@.insert(id, t@));
                    }
                }
                Some(r)
            },
            None => {
                proof {
                    assert(old(self)@.remove(id) =~= old(self)@);
                }
                None
            },
        }
    }

    /// Deletes every word of an instance. Returns whether the id is known.
    pub fn clear(&mut self, id: u128) -> (r: bool)
        requires
            old(self).wf(),
        ensures
            final(self).wf(),
            r == old(self)@.contains_key(id),
            r ==> final(self)@ == old(self)@.insert(id, Set::empty()),
            !r ==> final(self)@ == old(self)@,
    {
        match self.take(id) {
            Some(mut t) => {
                t.delete_dictionary();
                self.put(id, t);
                proof {
                    assert(old(self)@.remove(id).insert(id, t@) =~= old(self)@.insert(id, t@));
                }
                true
            },
            None => {
                proof {
                    assert(old(self)@.remove(id) =~= old(self)@);
                }
                false
            },
        }
    }
}

} // verus!

