//! The prefix tree: owned nodes, each holding the children that continue it.
use vstd::prelude::*;
use crate::validate::{
    CustomError, is_letter, is_lower_letter, is_valid_word, is_stored_word, normalize, all_letters,
    is_error_for, is_batch_error, views, validate_word, validate_string, string_of, chars_of,
    lines, split_lines,
};

verus! {

/// One node of the tree. The path of characters from the root to a node
/// spells a prefix; `is_word` marks prefixes that are stored words.
#[derive(Debug)]
pub struct TrieNode {
    is_word: bool,
    char_val: char,
    children: Vec<TrieNode>,
}

impl TrieNode {
    pub closed spec fn has_child(self, c: char) -> bool {
        exists|i: int| 0 <= i < self.children@.len() && (#[trigger] self.children@[i]).char_val == c
    }

    pub closed spec fn child_idx(self, c: char) -> int {
        choose|i: int| 0 <= i < self.children@.len() && (#[trigger] self.children@[i]).char_val == c
    }

    /// The node reached from this one by following the characters of `s`.
    pub closed spec fn node_at(self, s: Seq<char>) -> Option<TrieNode>
        decreases s.len(),
    {
        if s.len() == 0 {
            Some(self)
        } else if self.has_child(s[0]) {
            self.children@[self.child_idx(s[0])].node_at(s.drop_first())
        } else {
            None
        }
    }

    pub closed spec fn has_path(self, s: Seq<char>) -> bool {
        self.node_at(s) is Some
    }

    pub closed spec fn has_word(self, s: Seq<char>) -> bool {
        self.node_at(s) is Some && self.node_at(s)->0.is_word
    }

    /// The strings that lead from this node to a node below it (or to itself).
    pub closed spec fn paths(self) -> Set<Seq<char>> {
        Set::new(|s: Seq<char>| self.has_path(s))
    }

    /// The stored words below this node, relative to it.
    pub closed spec fn words(self) -> Set<Seq<char>> {
        Set::new(|s: Seq<char>| self.has_word(s))
    }

    pub closed spec fn distinct(self) -> bool {
        forall|i: int, j: int|
            0 <= i < j < self.children@.len() ==> (#[trigger] self.children@[i]).char_val
                != (#[trigger] self.children@[j]).char_val
    }

    /// A node that is neither a word nor on the way to one would be garbage.
    pub closed spec fn live(self) -> bool {
        self.is_word || self.children@.len() > 0
    }

    /// Children have distinct characters, and every node below this one is live.
    pub closed spec fn wf(self) -> bool
        decreases self,
    {
        &&& self.distinct()
        &&& forall|i: int|
            0 <= i < self.children@.len() ==> (#[trigger] self.children@[i]).live()
                && self.children@[i].wf()
    }
}

/// The prefixes of `s` that are longer than `m`.
pub open spec fn longer_prefixes(s: Seq<char>, m: int) -> Set<Seq<char>> {
    Set::new(|t: Seq<char>| exists|k: int| m < k <= s.len() && t == s.take(k))
}

proof fn lemma_longer_prefixes_cons(s: Seq<char>, m: int, t: Seq<char>)
    requires
        s.len() > 0,
        m >= 0,
    ensures
        (t.len() == 0 || t[0] != s[0]) ==> !longer_prefixes(s, m).contains(t),
        (t.len() > 0 && t[0] == s[0]) ==> (longer_prefixes(s, m + 1).contains(t)
            <==> longer_prefixes(s.drop_first(), m).contains(t.drop_first())),
{
    if longer_prefixes(s, m).contains(t) {
        let k = choose|k: int| m < k <= s.len() && t == s.take(k);
        assert(t[0] == s[0]);
    }
    if t.len() > 0 && t[0] == s[0] {
        if longer_prefixes(s, m + 1).contains(t) {
            let k = choose|k: int| m + 1 < k <= s.len() && t == s.take(k);
            assert(t.drop_first() =~= s.drop_first().take(k - 1));
        }
        if longer_prefixes(s.drop_first(), m).contains(t.drop_first()) {
            let k = choose|k: int|
                m < k <= s.drop_first().len() && t.drop_first() == s.drop_first().take(k);
            assert(t =~= s.take(k + 1)) by {
                assert(t =~= seq![t[0]] + t.drop_first());
            }
        }
    }
}

/// The non-empty prefixes of the words of `ws`: one tree node each.
pub open spec fn node_set(ws: Set<Seq<char>>) -> Set<Seq<char>> {
    Set::new(
        |p: Seq<char>|
            p.len() > 0 && exists|w: Seq<char>| #[trigger] ws.contains(w) && p.len() <= w.len() && w.take(p.len() as int) == p,
    )
}

/// `p` is a prefix of some word of `ws`, or one of them.
pub open spec fn prefix_of_some(ws: Set<Seq<char>>, p: Seq<char>) -> bool {
    exists|w: Seq<char>| #[trigger] ws.contains(w) && p.len() <= w.len() && w.take(p.len() as int) == p
}

/// The case-folded forms of the words of a batch.
pub open spec fn normalized_set(ws: Seq<String>) -> Set<Seq<char>> {
    Set::new(|w: Seq<char>| exists|k: int| 0 <= k < ws.len() && w == normalize((#[trigger] ws[k])@))
}

/// The number of characters in a batch of words.
pub open spec fn total_len(ws: Seq<Seq<char>>) -> int
    decreases ws.len(),
{
    if ws.len() == 0 {
        0
    } else {
        total_len(ws.drop_last()) + ws.last().len()
    }
}

proof fn lemma_longer_prefixes_len(s: Seq<char>, m: int)
    requires
        0 <= m <= s.len(),
    ensures
        longer_prefixes(s, m).finite(),
        longer_prefixes(s, m).len() == s.len() - m,
    decreases s.len() - m,
{
    if m == s.len() {
        assert(longer_prefixes(s, m) =~= Set::empty());
    } else {
        lemma_longer_prefixes_len(s, m + 1);
        assert(longer_prefixes(s, m) =~= longer_prefixes(s, m + 1).insert(s.take(m + 1))) by {
            assert forall|t: Seq<char>| #[trigger] longer_prefixes(s, m).contains(t) implies longer_prefixes(s, m + 1).insert(s.take(m + 1)).contains(t) by {
                let k = choose|k: int| m < k <= s.len() && t == s.take(k);
                if k > m + 1 {
                    assert(longer_prefixes(s, m + 1).contains(t));
                }
            }
        }
        if longer_prefixes(s, m + 1).contains(s.take(m + 1)) {
            let k = choose|k: int| m + 1 < k <= s.len() && s.take(m + 1) == #[trigger] s.take(k);
            assert(s.take(m + 1).len() != s.take(k).len());
        }
    }
}

/// Case folding a batch keeps its number of characters.
pub proof fn lemma_total_len_normalize(ws: Seq<Seq<char>>)
    ensures
        total_len(ws.map_values(|w: Seq<char>| normalize(w))) == total_len(ws),
    decreases ws.len(),
{
    if ws.len() > 0 {
        lemma_total_len_normalize(ws.drop_last());
        assert(ws.map_values(|w: Seq<char>| normalize(w)).drop_last() =~= ws.drop_last().map_values(
            |w: Seq<char>| normalize(w),
        ));
    }
}

proof fn lemma_total_len_concat(a: Seq<Seq<char>>, b: Seq<Seq<char>>)
    ensures
        total_len(a + b) == total_len(a) + total_len(b),
    decreases b.len(),
{
    if b.len() == 0 {
        assert(a + b =~= a);
    } else {
        lemma_total_len_concat(a, b.drop_last());
        assert((a + b).drop_last() =~= a + b.drop_last());
    }
}

/// The lines of a text hold no more characters than the text and the line
/// begun before it.
pub proof fn lemma_total_len_lines(t: Seq<char>, cur: Seq<char>)
    ensures
        total_len(crate::validate::lines_from(t, cur)) <= t.len() + cur.len(),
    decreases t.len(),
{
    if t.len() == 0 {
        if cur.len() > 0 {
            assert(seq![cur].drop_last() =~= Seq::<Seq<char>>::empty());
            assert(total_len(Seq::<Seq<char>>::empty()) == 0);
            assert(total_len(seq![cur]) == cur.len());
        }
    } else if t[0] == '\n' {
        lemma_total_len_lines(t.drop_first(), Seq::empty());
        let first = seq![crate::validate::strip_cr(cur)];
        lemma_total_len_concat(first, crate::validate::lines_from(t.drop_first(), Seq::empty()));
        assert(first.drop_last() =~= Seq::<Seq<char>>::empty());
        assert(total_len(Seq::<Seq<char>>::empty()) == 0);
        assert(total_len(first) == crate::validate::strip_cr(cur).len());
    } else {
        lemma_total_len_lines(t.drop_first(), cur.push(t[0]));
    }
}

proof fn lemma_total_len_take(ws: Seq<Seq<char>>, k: int)
    requires
        0 <= k < ws.len(),
    ensures
        total_len(ws.take(k + 1)) == total_len(ws.take(k)) + ws[k].len(),
        total_len(ws.take(k + 1)) <= total_len(ws),
    decreases ws.len() - k,
{
    assert(ws.take(k + 1).drop_last() =~= ws.take(k));
    if k + 1 == ws.len() {
        assert(ws.take(k + 1) =~= ws);
    } else {
        lemma_total_len_take(ws, k + 1);
    }
}

/// From position `lo` on, no two entries of `v` read the same string.
pub open spec fn distinct_from(v: Seq<String>, lo: int) -> bool {
    forall|i: int, j: int| lo <= i < j < v.len() ==> (#[trigger] v[i])@ != (#[trigger] v[j])@
}

/// The strings that the entries of `v` read.
pub open spec fn view_set(v: Seq<String>) -> Set<Seq<char>> {
    Set::new(|x: Seq<char>| found(v, 0, x))
}

/// The non-empty strings that complete `p` to a word of `ws`.
pub open spec fn completions(ws: Set<Seq<char>>, p: Seq<char>) -> Set<Seq<char>> {
    Set::new(|x: Seq<char>| x.len() > 0 && ws.contains(p + x))
}

/// Some entry of `v` from position `lo` on reads `x`.
pub open spec fn found(v: Seq<String>, lo: int, x: Seq<char>) -> bool {
    exists|j: int| lo <= j < v.len() && (#[trigger] v[j])@ == x
}

/// `x` is `p` followed by something non-empty.
pub open spec fn extends(x: Seq<char>, p: Seq<char>) -> bool {
    x.len() > p.len() && x.take(p.len() as int) == p
}

/// The entries found from `n0` on: the earlier ones, the one pushed for a
/// child's own word, and those that the child's subtree added.
proof fn lemma_found_parts(
    before: Seq<String>,
    mid: Seq<String>,
    after: Seq<String>,
    n0: int,
    p1: Seq<char>,
    pushed: bool,
    x: Seq<char>,
)
    requires
        0 <= n0 <= before.len(),
        pushed ==> mid.len() == before.len() + 1 && mid.drop_last() == before && mid.last()@ == p1,
        !pushed ==> mid == before,
        after.len() >= mid.len(),
        after.subrange(0, mid.len() as int) == mid,
    ensures
        found(after, n0, x) == (found(before, n0, x) || (pushed && x == p1) || found(after, mid.len() as int, x)),
{
    assert forall|j: int| 0 <= j < mid.len() implies #[trigger] after[j] == mid[j] by {
        assert(after.subrange(0, mid.len() as int)[j] == after[j]);
    }
    assert forall|j: int| 0 <= j < before.len() implies #[trigger] mid[j] == before[j] by {
        if pushed {
            assert(mid.drop_last()[j] == mid[j]);
        }
    }
    if found(after, n0, x) {
        let j = choose|j: int| n0 <= j < after.len() && (#[trigger] after[j])@ == x;
        if j < before.len() {
            assert(before[j]@ == x);
        } else if j < mid.len() {
            assert(mid[j] == mid.last());
        }
    }
    if found(before, n0, x) {
        let j = choose|j: int| n0 <= j < before.len() && (#[trigger] before[j])@ == x;
        assert(after[j]@ == x);
    }
    if pushed && x == p1 {
        assert(after[before.len() as int]@ == x);
    }
}

impl TrieNode {
    /// `t` is a non-empty stored word whose first character is that of one of
    /// the first `i` children.
    pub closed spec fn word_in_first(self, i: int, t: Seq<char>) -> bool {
        t.len() > 0 && self.has_word(t) && exists|j: int|
            0 <= j < i && (#[trigger] self.children@[j]).char_val == t[0]
    }

    /// `x` is `p` followed by a non-empty word stored below this node.
    pub closed spec fn word_ext(self, x: Seq<char>, p: Seq<char>) -> bool {
        extends(x, p) && self.has_word(x.skip(p.len() as int))
    }

    /// `x` is `p` followed by a word of `word_in_first(i, _)`.
    pub closed spec fn first_ext(self, i: int, x: Seq<char>, p: Seq<char>) -> bool {
        extends(x, p) && self.word_in_first(i, x.skip(p.len() as int))
    }

    proof fn lemma_child(self, i: int)
        requires
            self.distinct(),
            0 <= i < self.children@.len(),
        ensures
            self.has_child(self.children@[i].char_val),
            self.child_idx(self.children@[i].char_val) == i,
    {
        let c = self.children@[i].char_val;
        assert(self.children@[i].char_val == c);
        let j = self.child_idx(c);
        if j != i {
            if j < i {
                assert(self.children@[j].char_val != self.children@[i].char_val);
            } else {
                assert(self.children@[i].char_val != self.children@[j].char_val);
            }
        }
    }

    proof fn lemma_node_at_cons(self, c: char, t: Seq<char>)
        ensures
            self.node_at(seq![c] + t) == (if self.has_child(c) {
                self.children@[self.child_idx(c)].node_at(t)
            } else {
                None
            }),
    {
        let s = seq![c] + t;
        assert(s[0] == c);
        assert(s.drop_first() =~= t);
    }

    /// Following a character that leads to child `i` continues from that child.
    proof fn lemma_node_at_child(self, i: int, t: Seq<char>)
        requires
            self.distinct(),
            0 <= i < self.children@.len(),
            t.len() > 0,
            t[0] == self.children@[i].char_val,
        ensures
            self.node_at(t) == self.children@[i].node_at(t.drop_first()),
    {
        self.lemma_child(i);
    }

    /// Two nodes that agree on every child but the one for `c` agree on every
    /// non-empty string that does not start with `c`.
    proof fn lemma_agree_except(a: TrieNode, b: TrieNode, c: char, t: Seq<char>)
        requires
            forall|d: char|
                d != c ==> (a.has_child(d) <==> b.has_child(d)),
            forall|d: char|
                d != c && a.has_child(d) ==> a.children@[a.child_idx(d)] == b.children@[b.child_idx(d)],
            t.len() > 0,
            t[0] != c,
        ensures
            a.node_at(t) == b.node_at(t),
    {
        assert(a.has_child(t[0]) == b.has_child(t[0]));
    }

    /// Replacing child `i` by a node with the same character keeps every other child.
    proof fn lemma_update_child(a: TrieNode, b: TrieNode, i: int)
        requires
            a.distinct(),
            0 <= i < a.children@.len(),
            b.children@ == a.children@.update(i, b.children@[i]),
            b.children@[i].char_val == a.children@[i].char_val,
        ensures
            b.distinct(),
            forall|d: char|
                d != a.children@[i].char_val ==> (a.has_child(d) <==> b.has_child(d)),
            forall|d: char|
                d != a.children@[i].char_val && a.has_child(d) ==> a.children@[a.child_idx(d)]
                    == b.children@[b.child_idx(d)],
    {
        let c = a.children@[i].char_val;
        assert forall|x: int, y: int| 0 <= x < y < b.children@.len() implies (
        #[trigger] b.children@[x]).char_val != (#[trigger] b.children@[y]).char_val by {
            assert(a.children@[x].char_val != a.children@[y].char_val);
        }
        assert forall|d: char| d != c implies (a.has_child(d) <==> b.has_child(d)) by {
            if a.has_child(d) {
                let j = a.child_idx(d);
                assert(b.children@[j].char_val == d);
            }
            if b.has_child(d) {
                let j = b.child_idx(d);
                assert(a.children@[j].char_val == d);
            }
        }
        assert forall|d: char| d != c && a.has_child(d) implies a.children@[a.child_idx(d)]
            == b.children@[b.child_idx(d)] by {
            let j = b.child_idx(d);
            assert(b.has_child(d));
            assert(a.children@[j].char_val == d);
            a.lemma_child(j);
        }
    }

    /// Adding a child for a new character keeps every other child.
    proof fn lemma_push_child(a: TrieNode, b: TrieNode)
        requires
            a.distinct(),
            b.children@.len() == a.children@.len() + 1,
            b.children@.drop_last() == a.children@,
            !a.has_child(b.children@.last().char_val),
        ensures
            b.distinct(),
            forall|d: char|
                d != b.children@.last().char_val ==> (a.has_child(d) <==> b.has_child(d)),
            forall|d: char|
                d != b.children@.last().char_val && a.has_child(d) ==> a.children@[a.child_idx(d)]
                    == b.children@[b.child_idx(d)],
    {
        let n = a.children@.len();
        let c = b.children@.last().char_val;
        assert forall|j: int| 0 <= j < n implies #[trigger] b.children@[j] == a.children@[j] by {
            assert(b.children@.drop_last()[j] == b.children@[j]);
        }
        assert forall|x: int, y: int| 0 <= x < y < b.children@.len() implies (
        #[trigger] b.children@[x]).char_val != (#[trigger] b.children@[y]).char_val by {
            if y == n {
                assert(a.children@[x].char_val != c);
            } else {
                assert(a.children@[x].char_val != a.children@[y].char_val);
            }
        }
        assert forall|d: char| d != c implies (a.has_child(d) <==> b.has_child(d)) by {
            if a.has_child(d) {
                let j = a.child_idx(d);
                assert(b.children@[j].char_val == d);
            }
            if b.has_child(d) {
                let j = b.child_idx(d);
                assert(a.children@[j].char_val == d);
            }
        }
        assert forall|d: char| d != c && a.has_child(d) implies a.children@[a.child_idx(d)]
            == b.children@[b.child_idx(d)] by {
            let j = b.child_idx(d);
            assert(b.has_child(d));
            assert(a.children@[j].char_val == d);
            a.lemma_child(j);
        }
    }

    /// Every prefix of a path is a path.
    proof fn lemma_prefix_path(self, s: Seq<char>, k: int)
        requires
            self.has_path(s),
            0 <= k <= s.len(),
        ensures
            self.has_path(s.take(k)),
        decreases s.len(),
    {
        if k > 0 {
            let ch = self.children@[self.child_idx(s[0])];
            ch.lemma_prefix_path(s.drop_first(), k - 1);
            assert(s.take(k)[0] == s[0]);
            assert(s.take(k).drop_first() =~= s.drop_first().take(k - 1));
        }
    }

    /// In a tree without garbage nodes every path leads on to a word.
    proof fn lemma_path_to_word(self, s: Seq<char>)
        requires
            self.wf(),
            self.has_path(s),
            s.len() > 0 || self.live(),
        ensures
            exists|u: Seq<char>| self.has_word(s + u),
        decreases self,
    {
        if s.len() > 0 {
            let i = self.child_idx(s[0]);
            let ch = self.children@[i];
            assert(ch.live() && ch.wf());
            ch.lemma_path_to_word(s.drop_first());
            let u = choose|u: Seq<char>| ch.has_word(s.drop_first() + u);
            self.lemma_node_at_cons(s[0], s.drop_first() + u);
            assert(seq![s[0]] + (s.drop_first() + u) =~= s + u);
        } else if self.is_word {
            assert(s + Seq::<char>::empty() =~= s);
        } else {
            let ch = self.children@[0];
            assert(ch.live() && ch.wf());
            ch.lemma_path_to_word(s);
            let u = choose|u: Seq<char>| ch.has_word(s + u);
            self.lemma_child(0);
            self.lemma_node_at_cons(ch.char_val, u);
            assert(s + (seq![ch.char_val] + u) =~= seq![ch.char_val] + u);
            assert(s + u =~= u);
        }
    }

    /// Following `p` and then `x` is following `p + x`.
    proof fn lemma_node_at_append(self, p: Seq<char>, x: Seq<char>)
        ensures
            self.node_at(p + x) == (if self.node_at(p) is Some {
                self.node_at(p)->0.node_at(x)
            } else {
                None
            }),
        decreases p.len(),
    {
        if p.len() == 0 {
            assert(p + x =~= x);
        } else {
            assert((p + x)[0] == p[0]);
            assert((p + x).drop_first() =~= p.drop_first() + x);
            if self.has_child(p[0]) {
                self.children@[self.child_idx(p[0])].lemma_node_at_append(p.drop_first(), x);
            }
        }
    }

    /// Below a root that is no word, the paths are the empty string and the
    /// non-empty prefixes of the stored words.
    proof fn lemma_paths_are_prefixes(self)
        requires
            self.wf(),
        ensures
            self.paths() == node_set(self.words()).insert(Seq::empty()),
    {
        assert forall|t: Seq<char>| #[trigger] self.paths().contains(t) == node_set(self.words()).insert(
            Seq::empty(),
        ).contains(t) by {
            if t.len() > 0 {
                if self.has_path(t) {
                    self.lemma_path_to_word(t);
                    let u = choose|u: Seq<char>| self.has_word(t + u);
                    assert((t + u).take(t.len() as int) =~= t);
                    assert(self.words().contains(t + u));
                }
                if node_set(self.words()).contains(t) {
                    let w = choose|w: Seq<char>| #[trigger] self.words().contains(w) && t.len() <= w.len() && w.take(t.len() as int) == t;
                    self.lemma_prefix_path(w, t.len() as int);
                }
            } else {
                assert(t =~= Seq::<char>::empty());
            }
        }
        assert(self.paths() =~= node_set(self.words()).insert(Seq::empty()));
    }

    /// A well-formed node is live exactly when some word is stored at or below it.
    proof fn lemma_live_words(self)
        requires
            self.wf(),
        ensures
            self.live() <==> exists|t: Seq<char>| self.words().contains(t),
    {
        if self.live() {
            self.lemma_path_to_word(Seq::empty());
            let u = choose|u: Seq<char>| self.has_word(Seq::<char>::empty() + u);
            assert(self.words().contains(Seq::<char>::empty() + u));
        }
        if exists|t: Seq<char>| self.words().contains(t) {
            let t = choose|t: Seq<char>| self.words().contains(t);
            if t.len() > 0 {
                assert(self.has_child(t[0]));
            }
        }
    }

    /// A node for `new_char` that is no word and has no children yet.
    fn new(new_char: char) -> (r: TrieNode)
        ensures
            !r.is_word,
            r.char_val == new_char,
            r.children@.len() == 0,
    {
        TrieNode { is_word: false, char_val: new_char, children: Vec::new() }
    }

    /// The position of the child for `c`, if there is one.
    fn find_child(&self, c: char) -> (r: Option<usize>)
        requires
            self.distinct(),
        ensures
            r is Some <==> self.has_child(c),
            r is Some ==> r->0 == self.child_idx(c) && r->0 < self.children@.len(),
    {
        let mut i: usize = 0;
        while i < self.children.len()
            invariant
                self.distinct(),
                0 <= i <= self.children@.len(),
                forall|j: int| 0 <= j < i ==> (#[trigger] self.children@[j]).char_val != c,
            decreases self.children.len() - i,
        {
            if self.children[i].char_val == c {
                proof {
                    self.lemma_child(i as int);
                }
                return Some(i);
            }
            i = i + 1;
        }
        None
    }

    /// Stores the word `s[pos..]` below this node. Returns the number of nodes
    /// created, and whether the word was not stored before.
    fn add_word(&mut self, s: &Vec<char>, pos: usize) -> (r: (u32, bool))
        requires
            old(self).wf(),
            pos <= s@.len(),
            s@.len() <= u32::MAX,
        ensures
            final(self).wf(),
            final(self).char_val == old(self).char_val,
            final(self).words() == old(self).words().insert(s@.skip(pos as int)),
            final(self).paths() == old(self).paths().union(
                longer_prefixes(s@.skip(pos as int), s@.len() - pos - r.0),
            ),
            r.0 <= s@.len() - pos,
            forall|k: int|
                0 <= k <= s@.len() - pos ==> (old(self).has_path(#[trigger] s@.skip(pos as int).take(k))
                    <==> k <= s@.len() - pos - r.0),
            r.1 == !old(self).has_word(s@.skip(pos as int)),
        decreases s@.len() - pos,
    {
        let ghost suf = s@.skip(pos as int);
        let ghost before = *self;
        if pos == s.len() {
            assert(suf.len() == 0);
            let was = self.is_word;
            self.is_word = true;
            proof {
                let after = *self;
                assert forall|t: Seq<char>| t.len() > 0 implies after.node_at(t) == before.node_at(t) by {
                    assert(after.children == before.children);
                    assert(before.has_child(t[0]) == after.has_child(t[0]));
                }
                assert(suf =~= Seq::<char>::empty());
                assert forall|t: Seq<char>| #[trigger] after.words().contains(t) == before.words().insert(
                    suf,
                ).contains(t) by {
                    if t.len() == 0 {
                        assert(t =~= suf);
                    }
                }
                assert(after.words() =~= before.words().insert(suf));
                assert(after.paths() =~= before.paths().union(longer_prefixes(suf, 0)));
                assert forall|k: int| 0 <= k <= 0 implies before.has_path(#[trigger] suf.take(k)) by {
                    assert(suf.take(k) =~= Seq::<char>::empty());
                }
            }
            return (0, !was);
        }
        let c = s[pos];
        let ghost rest = s@.skip(pos + 1);
        assert(suf[0] == c);
        assert(suf.drop_first() =~= rest);
        match self.find_child(c) {
            Some(i) => {
                let r = self.children[i].add_word(s, pos + 1);
                proof {
                    TrieNode::lemma_add_below(before, *self, i as int, suf, r.0 as int);
                }
                r
            },
            None => {
                let mut node = TrieNode::new(c);
                let ghost fresh = node;
                let r = node.add_word(s, pos + 1);
                self.children.push(node);
                proof {
                    TrieNode::lemma_add_fresh(before, *self, fresh, suf, r.0 as int);
                }
                (r.0 + 1, r.1)
            },
        }
    }

    /// The step of `add_word` where the child for the next character exists.
    #[verifier::spinoff_prover]
    #[verifier::rlimit(60)]
    proof fn lemma_add_below(before: TrieNode, after: TrieNode, i: int, suf: Seq<char>, r0: int)
        requires
            before.wf(),
            suf.len() > 0,
            0 <= i < before.children@.len(),
            before.children@[i].char_val == suf[0],
            after.is_word == before.is_word,
            after.char_val == before.char_val,
            after.children@ == before.children@.update(i, after.children@[i]),
            ({
                let (oc, nc, rest) = (before.children@[i], after.children@[i], suf.drop_first());
                &&& nc.wf()
                &&& nc.char_val == oc.char_val
                &&& nc.words() == oc.words().insert(rest)
                &&& nc.paths() == oc.paths().union(longer_prefixes(rest, rest.len() - r0))
                &&& 0 <= r0 <= rest.len()
                &&& forall|k: int|
                    0 <= k <= rest.len() ==> (oc.has_path(#[trigger] rest.take(k)) <==> k <= rest.len() - r0)
            }),
        ensures
            after.wf(),
            after.words() == before.words().insert(suf),
            after.paths() == before.paths().union(longer_prefixes(suf, suf.len() - r0)),
            forall|k: int|
                0 <= k <= suf.len() ==> (before.has_path(#[trigger] suf.take(k)) <==> k <= suf.len() - r0),
            before.has_word(suf) == before.children@[i].has_word(suf.drop_first()),
    {
        let c = suf[0];
        let rest = suf.drop_first();
        let old_child = before.children@[i];
        let new_child = after.children@[i];
        TrieNode::lemma_update_child(before, after, i);
        assert(new_child.words().contains(rest));
        assert(new_child.live()) by {
            if rest.len() > 0 {
                assert(new_child.has_child(rest[0]));
            }
        }
        assert forall|j: int| 0 <= j < after.children@.len() implies (
        #[trigger] after.children@[j]).live() && after.children@[j].wf() by {
            if j != i {
                assert(after.children@[j] == before.children@[j]);
            }
        }
        assert(after.wf());
        let m = suf.len() - r0;
        assert forall|t: Seq<char>|
            #![trigger after.words().contains(t)]
            #![trigger after.paths().contains(t)]
            after.words().contains(t) == before.words().insert(suf).contains(t)
                && after.paths().contains(t) == before.paths().union(longer_prefixes(suf, m)).contains(t) by {
            lemma_longer_prefixes_cons(suf, m - 1, t);
            if t.len() == 0 {
                assert(t != suf);
            } else if t[0] == c {
                let t1 = t.drop_first();
                before.lemma_node_at_child(i, t);
                after.lemma_node_at_child(i, t);
                assert(new_child.words().contains(t1) == old_child.words().insert(rest).contains(t1));
                assert(new_child.paths().contains(t1) == old_child.paths().union(
                    longer_prefixes(rest, m - 1),
                ).contains(t1));
                assert(t == suf <==> t1 == rest) by {
                    if t1 == rest {
                        assert(t =~= seq![c] + rest);
                        assert(suf =~= seq![c] + rest);
                    }
                }
            } else {
                TrieNode::lemma_agree_except(before, after, c, t);
                assert(t != suf);
            }
        }
        assert(after.words() =~= before.words().insert(suf));
        assert(after.paths() =~= before.paths().union(longer_prefixes(suf, m)));
        assert forall|k: int| 0 <= k <= suf.len() implies (before.has_path(#[trigger] suf.take(k))
            <==> k <= m) by {
            if k > 0 {
                assert(suf.take(k)[0] == c);
                assert(suf.take(k).drop_first() =~= rest.take(k - 1));
            }
        }
    }

    /// The step of `add_word` where a fresh child is made for the next character.
    #[verifier::spinoff_prover]
    #[verifier::rlimit(60)]
    proof fn lemma_add_fresh(before: TrieNode, after: TrieNode, fresh: TrieNode, suf: Seq<char>, r0: int)
        requires
            before.wf(),
            suf.len() > 0,
            !before.has_child(suf[0]),
            fresh.char_val == suf[0],
            fresh.children@.len() == 0,
            !fresh.is_word,
            after.is_word == before.is_word,
            after.char_val == before.char_val,
            after.children@ == before.children@.push(after.children@.last()),
            ({
                let (nc, rest) = (after.children@.last(), suf.drop_first());
                &&& nc.wf()
                &&& nc.char_val == fresh.char_val
                &&& nc.words() == fresh.words().insert(rest)
                &&& nc.paths() == fresh.paths().union(longer_prefixes(rest, rest.len() - r0))
                &&& 0 <= r0 <= rest.len()
                &&& forall|k: int|
                    0 <= k <= rest.len() ==> (fresh.has_path(#[trigger] rest.take(k)) <==> k <= rest.len() - r0)
            }),
        ensures
            after.wf(),
            r0 == suf.len() - 1,
            after.words() == before.words().insert(suf),
            after.paths() == before.paths().union(longer_prefixes(suf, 0)),
            forall|k: int| 0 <= k <= suf.len() ==> (before.has_path(#[trigger] suf.take(k)) <==> k <= 0),
            !before.has_word(suf),
    {
        let c = suf[0];
        let rest = suf.drop_first();
        let new_child = after.children@.last();
        let i = before.children@.len() as int;
        assert(after.children@.drop_last() =~= before.children@);
        TrieNode::lemma_push_child(before, after);
        assert(after.children@[i] == new_child);
        assert(new_child.words().contains(rest));
        assert(new_child.live()) by {
            if rest.len() > 0 {
                assert(new_child.has_child(rest[0]));
            }
        }
        assert forall|j: int| 0 <= j < after.children@.len() implies (
        #[trigger] after.children@[j]).live() && after.children@[j].wf() by {
            if j != i {
                assert(after.children@[j] == before.children@[j]);
            }
        }
        assert(after.wf());
        assert forall|t: Seq<char>| t.len() > 0 implies !fresh.has_path(t) by {
            assert(!fresh.has_child(t[0]));
        }
        if rest.len() > 0 {
            assert(!fresh.has_path(rest.take(1)));
        }
        assert forall|t: Seq<char>|
            #![trigger after.words().contains(t)]
            #![trigger after.paths().contains(t)]
            after.words().contains(t) == before.words().insert(suf).contains(t)
                && after.paths().contains(t) == before.paths().union(longer_prefixes(suf, 0)).contains(t) by {
            lemma_longer_prefixes_cons(suf, 0, t);
            if t.len() == 0 {
                assert(t != suf);
            } else if t[0] == c {
                let t1 = t.drop_first();
                after.lemma_node_at_child(i, t);
                assert(!before.has_path(t));
                assert(new_child.words().contains(t1) == fresh.words().insert(rest).contains(t1));
                assert(new_child.paths().contains(t1) == fresh.paths().union(
                    longer_prefixes(rest, 0),
                ).contains(t1));
                assert(t == suf <==> t1 == rest) by {
                    if t1 == rest {
                        assert(t =~= seq![c] + rest);
                        assert(suf =~= seq![c] + rest);
                    }
                }
                if t1.len() > 0 {
                    assert(!fresh.has_path(t1));
                    assert(!fresh.has_word(t1));
                } else {
                    assert(fresh.node_at(t1) == Some(fresh));
                }
                if new_child.paths().contains(t1) {
                    if t1.len() == 0 {
                        assert(t =~= suf.take(1));
                    } else {
                        let k = choose|k: int| 0 < k <= rest.len() && t1 == rest.take(k);
                        assert(t =~= suf.take(k + 1)) by {
                            assert(t =~= seq![c] + t1);
                        }
                    }
                    assert(longer_prefixes(suf, 0).contains(t));
                }
                if longer_prefixes(suf, 0).contains(t) {
                    let k = choose|k: int| 0 < k <= suf.len() && t == suf.take(k);
                    if k > 1 {
                        assert(t1 =~= rest.take(k - 1));
                        assert(longer_prefixes(rest, 0).contains(t1));
                    } else {
                        assert(t1.len() == 0);
                    }
                }
            } else {
                TrieNode::lemma_agree_except(before, after, c, t);
                assert(t != suf);
            }
        }
        assert(after.words() =~= before.words().insert(suf));
        assert(after.paths() =~= before.paths().union(longer_prefixes(suf, 0)));
        assert forall|k: int| 0 <= k <= suf.len() implies (before.has_path(#[trigger] suf.take(k))
            <==> k <= 0) by {
            if k > 0 {
                assert(suf.take(k)[0] == c);
            }
        }
        assert(!before.has_path(suf));
    }

    /// Removing child `i` keeps every other child.
    proof fn lemma_remove_child(a: TrieNode, b: TrieNode, i: int)
        requires
            a.distinct(),
            0 <= i < a.children@.len(),
            b.children@ == a.children@.remove(i),
        ensures
            b.distinct(),
            !b.has_child(a.children@[i].char_val),
            forall|d: char|
                d != a.children@[i].char_val ==> (a.has_child(d) <==> b.has_child(d)),
            forall|d: char|
                d != a.children@[i].char_val && a.has_child(d) ==> a.children@[a.child_idx(d)]
                    == b.children@[b.child_idx(d)],
            forall|j: int| 0 <= j < b.children@.len() ==> exists|k: int| 0 <= k < a.children@.len() && #[trigger] b.children@[j] == a.children@[k],
    {
        let c = a.children@[i].char_val;
        assert forall|j: int| 0 <= j < b.children@.len() implies #[trigger] b.children@[j] == a.children@[
            if j < i { j } else { j + 1 }
        ] by {
        }
        assert forall|x: int, y: int| 0 <= x < y < b.children@.len() implies (
        #[trigger] b.children@[x]).char_val != (#[trigger] b.children@[y]).char_val by {
            let x0 = if x < i { x } else { x + 1 };
            let y0 = if y < i { y } else { y + 1 };
            assert(a.children@[x0].char_val != a.children@[y0].char_val);
        }
        if b.has_child(c) {
            let j = b.child_idx(c);
            let j0 = if j < i { j } else { j + 1 };
            if j0 < i {
                assert(a.children@[j0].char_val != a.children@[i].char_val);
            } else {
                assert(a.children@[i].char_val != a.children@[j0].char_val);
            }
        }
        assert forall|d: char| d != c implies (a.has_child(d) <==> b.has_child(d)) by {
            if a.has_child(d) {
                let k = a.child_idx(d);
                assert(k != i);
                let j = if k < i { k } else { k - 1 };
                assert(b.children@[j].char_val == d);
            }
            if b.has_child(d) {
                let j = b.child_idx(d);
                let j0 = if j < i { j } else { j + 1 };
                assert(a.children@[j0].char_val == d);
            }
        }
        assert forall|d: char| d != c && a.has_child(d) implies a.children@[a.child_idx(d)]
            == b.children@[b.child_idx(d)] by {
            let j = b.child_idx(d);
            assert(b.has_child(d));
            let j0 = if j < i { j } else { j + 1 };
            assert(a.children@[j0].char_val == d);
            a.lemma_child(j0);
        }
    }

    /// Removes the word `s[pos..]` from below this node and unlinks the nodes
    /// that no stored word needs any more. Returns whether the word was stored,
    /// how many nodes were unlinked, and whether this node is now garbage that
    /// its parent must unlink.
    fn delete_from_trie(&mut self, s: &Vec<char>, pos: usize) -> (r: (bool, u32, bool))
        requires
            old(self).wf(),
            pos <= s@.len(),
            s@.len() <= u32::MAX,
        ensures
            final(self).wf(),
            final(self).char_val == old(self).char_val,
            r.0 == old(self).has_word(s@.skip(pos as int)),
            final(self).words() == old(self).words().remove(s@.skip(pos as int)),
            final(self).paths() == old(self).paths().difference(
                longer_prefixes(s@.skip(pos as int), s@.len() - pos - r.1),
            ),
            r.1 <= s@.len() - pos,
            !r.0 ==> r.1 == 0,
            r.2 == (r.0 && !final(self).live()),
            r.2 ==> r.1 == s@.len() - pos,
        decreases s@.len() - pos,
    {
        let ghost suf = s@.skip(pos as int);
        let ghost before = *self;
        if pos == s.len() {
            assert(suf =~= Seq::<char>::empty());
            if !self.is_word {
                assert(self.paths().difference(longer_prefixes(suf, 0)) =~= self.paths());
                assert(self.words().remove(suf) =~= self.words());
                return (false, 0, false);
            }
            self.is_word = false;
            proof {
                let after = *self;
                assert(after.children == before.children);
                assert forall|t: Seq<char>|
                    #![trigger after.words().contains(t)]
                    #![trigger after.paths().contains(t)]
                    after.words().contains(t) == before.words().remove(suf).contains(t)
                        && after.paths().contains(t) == before.paths().difference(longer_prefixes(suf, 0)).contains(t) by {
                    if t.len() == 0 {
                        assert(t =~= suf);
                    } else {
                        assert(before.has_child(t[0]) == after.has_child(t[0]));
                        assert(t != suf);
                    }
                }
                assert(after.words() =~= before.words().remove(suf));
                assert(after.paths() =~= before.paths().difference(longer_prefixes(suf, 0)));
            }
            return (true, 0, self.children.len() == 0);
        }
        let c = s[pos];
        let ghost rest = s@.skip(pos + 1);
        assert(suf[0] == c);
        assert(suf.drop_first() =~= rest);
        match self.find_child(c) {
            Some(i) => {
                let r = self.children[i].delete_from_trie(s, pos + 1);
                if r.2 {
                    let ghost mid = *self;
                    self.children.remove(i);
                    proof {
                        TrieNode::lemma_delete_unlink(before, mid, *self, i as int, suf);
                    }
                    return (true, r.1 + 1, !self.is_word && self.children.len() == 0);
                }
                proof {
                    let (oc, nc) = (before.children@[i as int], self.children@[i as int]);
                    if !r.0 {
                        oc.lemma_live_words();
                        nc.lemma_live_words();
                        assert(oc.words().remove(rest) =~= oc.words());
                    }
                    TrieNode::lemma_delete_keep(before, *self, i as int, suf, r.1 as int);
                }
                r
            },
            None => {
                proof {
                    assert(!self.has_path(suf));
                    assert(self.paths().difference(longer_prefixes(suf, suf.len() as int)) =~= self.paths()) by {
                        assert forall|t: Seq<char>| !longer_prefixes(suf, suf.len() as int).contains(t) by {
                        }
                    }
                    assert(self.words().remove(suf) =~= self.words());
                }
                (false, 0, false)
            },
        }
    }

    /// The step of `delete_from_trie` where the child for the next character stays.
    #[verifier::spinoff_prover]
    #[verifier::rlimit(60)]
    proof fn lemma_delete_keep(before: TrieNode, after: TrieNode, i: int, suf: Seq<char>, r1: int)
        requires
            before.wf(),
            suf.len() > 0,
            0 <= i < before.children@.len(),
            before.children@[i].char_val == suf[0],
            after.is_word == before.is_word,
            after.char_val == before.char_val,
            after.children@ == before.children@.update(i, after.children@[i]),
            ({
                let (oc, nc, rest) = (before.children@[i], after.children@[i], suf.drop_first());
                &&& nc.wf()
                &&& nc.live()
                &&& nc.char_val == oc.char_val
                &&& nc.words() == oc.words().remove(rest)
                &&& nc.paths() == oc.paths().difference(longer_prefixes(rest, rest.len() - r1))
                &&& 0 <= r1 <= rest.len()
            }),
        ensures
            after.wf(),
            after.words() == before.words().remove(suf),
            after.paths() == before.paths().difference(longer_prefixes(suf, suf.len() - r1)),
            before.has_word(suf) == before.children@[i].has_word(suf.drop_first()),
    {
        let c = suf[0];
        let rest = suf.drop_first();
        let old_child = before.children@[i];
        let new_child = after.children@[i];
        TrieNode::lemma_update_child(before, after, i);
        assert forall|j: int| 0 <= j < after.children@.len() implies (
        #[trigger] after.children@[j]).live() && after.children@[j].wf() by {
            if j != i {
                assert(after.children@[j] == before.children@[j]);
            }
        }
        assert(after.wf());
        let m = suf.len() - r1;
        assert forall|t: Seq<char>|
            #![trigger after.words().contains(t)]
            #![trigger after.paths().contains(t)]
            after.words().contains(t) == before.words().remove(suf).contains(t)
                && after.paths().contains(t) == before.paths().difference(longer_prefixes(suf, m)).contains(t) by {
            lemma_longer_prefixes_cons(suf, m - 1, t);
            if t.len() == 0 {
                assert(t != suf);
            } else if t[0] == c {
                let t1 = t.drop_first();
                before.lemma_node_at_child(i, t);
                after.lemma_node_at_child(i, t);
                assert(new_child.words().contains(t1) == old_child.words().remove(rest).contains(t1));
                assert(new_child.paths().contains(t1) == old_child.paths().difference(
                    longer_prefixes(rest, m - 1),
                ).contains(t1));
                assert(t == suf <==> t1 == rest) by {
                    if t1 == rest {
                        assert(t =~= seq![c] + rest);
                        assert(suf =~= seq![c] + rest);
                    }
                }
            } else {
                TrieNode::lemma_agree_except(before, after, c, t);
                assert(t != suf);
            }
        }
        assert(after.words() =~= before.words().remove(suf));
        assert(after.paths() =~= before.paths().difference(longer_prefixes(suf, m)));
        before.lemma_node_at_child(i, suf);
    }

    /// The step of `delete_from_trie` where the child for the next character
    /// became garbage and is unlinked.
    #[verifier::spinoff_prover]
    #[verifier::rlimit(60)]
    proof fn lemma_delete_unlink(before: TrieNode, mid: TrieNode, after: TrieNode, i: int, suf: Seq<char>)
        requires
            before.wf(),
            suf.len() > 0,
            0 <= i < before.children@.len(),
            before.children@[i].char_val == suf[0],
            mid.is_word == before.is_word,
            mid.char_val == before.char_val,
            mid.children@ == before.children@.update(i, mid.children@[i]),
            after.is_word == before.is_word,
            after.char_val == before.char_val,
            after.children@ == mid.children@.remove(i),
            ({
                let (oc, nc, rest) = (before.children@[i], mid.children@[i], suf.drop_first());
                &&& !nc.live()
                &&& nc.char_val == oc.char_val
                &&& nc.words() == oc.words().remove(rest)
                &&& nc.paths() == oc.paths().difference(longer_prefixes(rest, 0))
                &&& oc.has_word(rest)
            }),
        ensures
            after.wf(),
            after.words() == before.words().remove(suf),
            after.paths() == before.paths().difference(longer_prefixes(suf, 0)),
            before.has_word(suf),
    {
        let c = suf[0];
        let rest = suf.drop_first();
        let old_child = before.children@[i];
        let dead = mid.children@[i];
        TrieNode::lemma_update_child(before, mid, i);
        assert(mid.children@.remove(i) =~= before.children@.remove(i));
        TrieNode::lemma_remove_child(before, after, i);
        assert forall|j: int| 0 <= j < after.children@.len() implies (
        #[trigger] after.children@[j]).live() && after.children@[j].wf() by {
            let k = choose|k: int| 0 <= k < before.children@.len() && after.children@[j] == before.children@[k];
        }
        assert(after.wf());
        assert forall|t: Seq<char>| t.len() > 0 implies !dead.has_path(t) by {
            assert(!dead.has_child(t[0]));
        }
        assert forall|t: Seq<char>|
            #![trigger after.words().contains(t)]
            #![trigger after.paths().contains(t)]
            after.words().contains(t) == before.words().remove(suf).contains(t)
                && after.paths().contains(t) == before.paths().difference(longer_prefixes(suf, 0)).contains(t) by {
            lemma_longer_prefixes_cons(suf, 0, t);
            if t.len() == 0 {
                assert(t != suf);
            } else if t[0] == c {
                let t1 = t.drop_first();
                before.lemma_node_at_child(i, t);
                assert(after.node_at(t) is None);
                assert(dead.words().contains(t1) == old_child.words().remove(rest).contains(t1));
                assert(dead.paths().contains(t1) == old_child.paths().difference(
                    longer_prefixes(rest, 0),
                ).contains(t1));
                assert(t == suf <==> t1 == rest) by {
                    if t1 == rest {
                        assert(t =~= seq![c] + rest);
                        assert(suf =~= seq![c] + rest);
                    }
                }
                assert(!dead.has_word(t1));
                if t1.len() > 0 {
                    assert(!dead.has_path(t1));
                }
                if old_child.has_path(t1) {
                    if t1.len() == 0 {
                        assert(t =~= suf.take(1));
                    } else {
                        let k = choose|k: int| 0 < k <= rest.len() && t1 == rest.take(k);
                        assert(t =~= suf.take(k + 1)) by {
                            assert(t =~= seq![c] + t1);
                        }
                    }
                    assert(longer_prefixes(suf, 0).contains(t));
                }
                if longer_prefixes(suf, 0).contains(t) {
                    let k = choose|k: int| 0 < k <= suf.len() && t == suf.take(k);
                    assert(t1 =~= rest.take(k - 1));
                    old_child.lemma_prefix_path(rest, k - 1);
                }
            } else {
                TrieNode::lemma_agree_except(before, after, c, t);
                assert(t != suf);
            }
        }
        assert(after.words() =~= before.words().remove(suf));
        assert(after.paths() =~= before.paths().difference(longer_prefixes(suf, 0)));
        before.lemma_node_at_child(i, suf);
    }

    /// Appends to `out`, for each non-empty word `t` stored below this node,
    /// the string `path` followed by `t`.
    fn autocomplete_below(&self, path: &mut Vec<char>, out: &mut Vec<String>)
        requires
            self.wf(),
        ensures
            final(path)@ == old(path)@,
            final(out)@.len() >= old(out)@.len(),
            final(out)@.subrange(0, old(out)@.len() as int) == old(out)@,
            forall|x: Seq<char>|
                found(final(out)@, old(out)@.len() as int, x) <==> self.word_ext(x, old(path)@),
            distinct_from(final(out)@, old(out)@.len() as int),
        decreases self,
    {
        let ghost p0 = path@;
        let ghost out0 = out@;
        let mut i: usize = 0;
        while i < self.children.len()
            invariant
                self.wf(),
                path@ == p0,
                0 <= i <= self.children@.len(),
                out@.len() >= out0.len(),
                out@.subrange(0, out0.len() as int) == out0,
                forall|x: Seq<char>|
                    found(out@, out0.len() as int, x) <==> self.first_ext(i as int, x, p0),
                distinct_from(out@, out0.len() as int),
            decreases self.children.len() - i,
        {
            let ch = &self.children[i];
            assert(ch.wf());
            let ghost mid_before = out@;
            path.push(ch.char_val);
            let ghost p1 = path@;
            if ch.is_word {
                out.push(string_of(path));
            }
            let ghost mid = out@;
            ch.autocomplete_below(path, out);
            path.pop();
            proof {
                if ch.is_word {
                    assert(mid.drop_last() =~= mid_before);
                }
                assert(path@ =~= p0);
                TrieNode::lemma_autocomplete_step(*self, i as int, p0, out0, mid_before, mid, out@);
                TrieNode::lemma_distinct_step(*self, i as int, p0, out0, mid_before, mid, out@);
            }
            i = i + 1;
        }
        proof {
            assert forall|x: Seq<char>|
                self.first_ext(i as int, x, p0) == self.word_ext(x, p0) by {
                let t = x.skip(p0.len() as int);
                if t.len() > 0 && self.has_word(t) {
                    assert(self.has_child(t[0]));
                    let j = self.child_idx(t[0]);
                    assert(self.children@[j].char_val == t[0]);
                }
            }
        }
    }

    /// One child's turn in `autocomplete_below`.
    #[verifier::spinoff_prover]
    #[verifier::rlimit(60)]
    proof fn lemma_autocomplete_step(
        node: TrieNode,
        i: int,
        p0: Seq<char>,
        out0: Seq<String>,
        before: Seq<String>,
        mid: Seq<String>,
        after: Seq<String>,
    )
        requires
            node.wf(),
            0 <= i < node.children@.len(),
            before.len() >= out0.len(),
            before.subrange(0, out0.len() as int) == out0,
            forall|x: Seq<char>|
                found(before, out0.len() as int, x) <==> node.first_ext(i, x, p0),
            ({
                let ch = node.children@[i];
                let p1 = p0.push(ch.char_val);
                &&& ch.is_word ==> mid.len() == before.len() + 1 && mid.drop_last() == before && mid.last()@ == p1
                &&& !ch.is_word ==> mid == before
                &&& after.len() >= mid.len()
                &&& after.subrange(0, mid.len() as int) == mid
                &&& forall|x: Seq<char>|
                    found(after, mid.len() as int, x) <==> ch.word_ext(x, p1)
            }),
        ensures
            after.len() >= out0.len(),
            after.subrange(0, out0.len() as int) == out0,
            forall|x: Seq<char>|
                found(after, out0.len() as int, x) <==> node.first_ext(i + 1, x, p0),
    {
        let ch = node.children@[i];
        let c = ch.char_val;
        let p1 = p0.push(c);
        let n0 = out0.len() as int;
        assert forall|j: int| 0 <= j < before.len() implies #[trigger] after[j] == before[j] by {
            assert(after.subrange(0, mid.len() as int)[j] == after[j]);
            if ch.is_word {
                assert(mid.drop_last()[j] == mid[j]);
            }
        }
        assert(after.subrange(0, n0) =~= out0) by {
            assert forall|j: int| 0 <= j < n0 implies #[trigger] after.subrange(0, n0)[j] == out0[j] by {
                assert(before.subrange(0, n0)[j] == before[j]);
            }
        }
        assert forall|x: Seq<char>|
            found(after, n0, x) <==> node.first_ext(i + 1, x, p0) by {
            lemma_found_parts(before, mid, after, n0, p1, ch.is_word, x);
            node.lemma_first_ext_step(i, x, p0);
        }
    }

    /// The entries of one child's turn differ from each other and from the
    /// earlier ones, which start with the characters of earlier children.
    #[verifier::spinoff_prover]
    #[verifier::rlimit(60)]
    proof fn lemma_distinct_step(
        node: TrieNode,
        i: int,
        p0: Seq<char>,
        out0: Seq<String>,
        before: Seq<String>,
        mid: Seq<String>,
        after: Seq<String>,
    )
        requires
            node.wf(),
            0 <= i < node.children@.len(),
            out0.len() <= before.len(),
            forall|x: Seq<char>|
                found(before, out0.len() as int, x) <==> node.first_ext(i, x, p0),
            distinct_from(before, out0.len() as int),
            ({
                let ch = node.children@[i];
                let p1 = p0.push(ch.char_val);
                &&& ch.is_word ==> mid.len() == before.len() + 1 && mid.drop_last() == before && mid.last()@ == p1
                &&& !ch.is_word ==> mid == before
                &&& after.len() >= mid.len()
                &&& after.subrange(0, mid.len() as int) == mid
                &&& forall|x: Seq<char>|
                    found(after, mid.len() as int, x) <==> ch.word_ext(x, p1)
                &&& distinct_from(after, mid.len() as int)
            }),
        ensures
            distinct_from(after, out0.len() as int),
    {
        let ch = node.children@[i];
        let c = ch.char_val;
        let p1 = p0.push(c);
        let n0 = out0.len() as int;
        let nb = before.len() as int;
        let nm = mid.len() as int;
        assert forall|j: int| 0 <= j < nm implies #[trigger] after[j] == mid[j] by {
            assert(after.subrange(0, nm)[j] == after[j]);
        }
        assert forall|j: int| 0 <= j < nb implies #[trigger] mid[j] == before[j] by {
            if ch.is_word {
                assert(mid.drop_last()[j] == mid[j]);
            }
        }
        // Every earlier entry continues `p0` with the character of an earlier child.
        assert forall|a: int| n0 <= a < nb implies extends(#[trigger] before[a]@, p0) && before[a]@[p0.len() as int] != c by {
            assert(found(before, n0, before[a]@));
            let t = before[a]@.skip(p0.len() as int);
            assert(node.word_in_first(i, t));
            let j = choose|j: int| 0 <= j < i && (#[trigger] node.children@[j]).char_val == t[0];
            assert(node.children@[j].char_val != node.children@[i].char_val);
            assert(t[0] == before[a]@[p0.len() as int]);
        }
        // Every entry of the child's subtree continues `p1`.
        assert forall|b: int| nm <= b < after.len() implies extends(#[trigger] after[b]@, p1) by {
            assert(found(after, nm, after[b]@));
            assert(ch.word_ext(after[b]@, p1));
        }
        assert forall|a: int, b: int| n0 <= a < b < after.len() implies (#[trigger] after[a])@ != (#[trigger] after[b])@ by {
            if b < nb {
                assert(after[a] == before[a] && after[b] == before[b]);
            } else if a >= nm {
            } else if a < nb {
                assert(after[a] == before[a]);
                if b < nm {
                    assert(after[b] == mid[b]);
                    assert(after[b]@ == p1);
                    assert(p1[p0.len() as int] == c);
                    if after[a]@ == after[b]@ {
                        assert(before[a]@[p0.len() as int] == p1[p0.len() as int]);
                    }
                } else {
                    assert(extends(after[b]@, p1));
                    if after[a]@ == after[b]@ {
                        assert(after[b]@.take(p1.len() as int)[p0.len() as int] == after[b]@[p0.len() as int]);
                        assert(before[a]@[p0.len() as int] == p1[p0.len() as int]);
                    }
                }
            } else {
                assert(after[a] == mid[a]);
                assert(after[a]@ == p1);
                assert(extends(after[b]@, p1));
            }
        }
    }

    /// The words counted once `i + 1` children are done: those of the first
    /// `i`, and child `i`'s own word and the words below it.
    proof fn lemma_first_ext_step(self, i: int, x: Seq<char>, p0: Seq<char>)
        requires
            self.wf(),
            0 <= i < self.children@.len(),
        ensures
            self.first_ext(i + 1, x, p0) == (self.first_ext(i, x, p0) || (self.children@[i].is_word
                && x == p0.push(self.children@[i].char_val)) || self.children@[i].word_ext(
                x,
                p0.push(self.children@[i].char_val),
            )),
    {
        let ch = self.children@[i];
        let c = ch.char_val;
        let p1 = p0.push(c);
        let t = x.skip(p0.len() as int);
        if extends(x, p0) {
            assert(t[0] == x[p0.len() as int]);
            if t[0] == c {
                self.lemma_node_at_child(i, t);
                assert(!self.word_in_first(i, t)) by {
                    if exists|j: int| 0 <= j < i && (#[trigger] self.children@[j]).char_val == t[0] {
                        let j = choose|j: int| 0 <= j < i && (#[trigger] self.children@[j]).char_val == t[0];
                        assert(self.children@[j].char_val != self.children@[i].char_val);
                    }
                }
                assert(self.word_in_first(i + 1, t) == self.has_word(t)) by {
                    if self.has_word(t) {
                        assert(self.children@[i].char_val == t[0]);
                    }
                }
                if t.len() == 1 {
                    assert(x =~= p1);
                    assert(!extends(x, p1));
                    assert(t.drop_first() =~= Seq::<char>::empty());
                } else {
                    assert(x.take(p1.len() as int) =~= p1);
                    assert(x.skip(p1.len() as int) =~= t.drop_first());
                    assert(x != p1);
                }
            } else {
                assert(self.word_in_first(i + 1, t) == self.word_in_first(i, t)) by {
                    if self.word_in_first(i + 1, t) {
                        let j = choose|j: int| 0 <= j < i + 1 && (#[trigger] self.children@[j]).char_val == t[0];
                        assert(j != i);
                    }
                }
                assert(x != p1) by {
                    if x == p1 {
                        assert(x[p0.len() as int] == c);
                    }
                }
                assert(!extends(x, p1)) by {
                    if extends(x, p1) {
                        assert(x.take(p1.len() as int)[p0.len() as int] == x[p0.len() as int]);
                    }
                }
            }
        } else {
            assert(x != p1) by {
                if x == p1 {
                    assert(x.take(p0.len() as int) =~= p0);
                }
            }
            assert(!extends(x, p1)) by {
                if extends(x, p1) {
                    assert(x.take(p0.len() as int) =~= p1.take(p0.len() as int));
                    assert(p1.take(p0.len() as int) =~= p0);
                }
            }
        }
    }

    /// The node reached by following `s` from position `pos` on.
    fn search_tree(&self, s: &Vec<char>, pos: usize) -> (r: Option<&TrieNode>)
        requires
            self.wf(),
            pos <= s@.len(),
        ensures
            r is Some <==> self.has_path(s@.skip(pos as int)),
            r is Some ==> Some(*r->0) == self.node_at(s@.skip(pos as int)),
            r is Some ==> r->0.wf(),
        decreases s@.len() - pos,
    {
        let ghost suf = s@.skip(pos as int);
        if pos == s.len() {
            assert(suf.len() == 0);
            return Some(self);
        }
        assert(suf[0] == s@[pos as int]);
        assert(suf.drop_first() =~= s@.skip(pos + 1));
        match self.find_child(s[pos]) {
            Some(i) => self.children[i].search_tree(s, pos + 1),
            None => None,
        }
    }
}

/// A dictionary of words kept as a prefix tree, with the number of words and
/// the number of nodes (the root not counted).
#[derive(Debug)]
pub struct Trie {
    base_trie_node: TrieNode,
    trie_size: u32,
    num_words: u32,
}

impl View for Trie {
    type V = Set<Seq<char>>;

    /// The stored words.
    closed spec fn view(&self) -> Set<Seq<char>> {
        self.base_trie_node.words()
    }
}

impl Trie {
    /// The tree has no garbage node, the root is no word, the words are
    /// stored words, and the two counters count what they name.
    pub closed spec fn wf(&self) -> bool {
        &&& self.base_trie_node.wf()
        &&& !self.base_trie_node.is_word
        &&& self.base_trie_node.words().finite()
        &&& self.num_words == self.base_trie_node.words().len()
        &&& node_set(self.base_trie_node.words()).finite()
        &&& self.trie_size == node_set(self.base_trie_node.words()).len()
        &&& forall|w: Seq<char>| #[trigger] self.base_trie_node.words().contains(w) ==> is_stored_word(w)
    }

    proof fn lemma_paths(&self)
        requires
            self.wf(),
        ensures
            self.base_trie_node.paths() == node_set(self@).insert(Seq::empty()),
            self.base_trie_node.paths().finite(),
            self.base_trie_node.paths().len() == self.trie_size + 1,
    {
        self.base_trie_node.lemma_paths_are_prefixes();
        assert(!node_set(self@).contains(Seq::empty()));
    }

    /// A stored word is no longer than the number of nodes.
    proof fn lemma_word_len(&self, w: Seq<char>)
        requires
            self.wf(),
            self@.contains(w),
        ensures
            w.len() <= self.trie_size,
    {
        lemma_longer_prefixes_len(w, 0);
        assert forall|t: Seq<char>| #[trigger] longer_prefixes(w, 0).contains(t) implies node_set(self@).contains(t) by {
            let k = choose|k: int| 0 < k <= w.len() && t == w.take(k);
            assert(self@.contains(w));
        }
        vstd::set_lib::lemma_len_subset(longer_prefixes(w, 0), node_set(self@));
    }

    /// A trie with no words.
    pub fn empty() -> (r: Trie)
        ensures
            r.wf(),
            r@ == Set::<Seq<char>>::empty(),
    {
        let r = Trie {
            base_trie_node: TrieNode { is_word: false, char_val: '!', children: Vec::new() },
            trie_size: 0,
            num_words: 0,
        };
        proof {
            let b = r.base_trie_node;
            assert forall|t: Seq<char>| !b.has_word(t) by {
                if t.len() > 0 {
                    assert(!b.has_child(t[0]));
                }
            }
            assert(b.words() =~= Set::empty());
            assert(node_set(b.words()) =~= Set::empty());
        }
        r
    }

    /// An empty trie, and the words of a word source (one word per line),
    /// checked and case-folded, for the caller to add. `None` stands for a
    /// source that could not be read; an empty source gives no words.
    pub fn new(file_contents: Option<String>) -> (r: (Result<Trie, CustomError>, Vec<String>))
        ensures
            file_contents is None ==> r.0 is Err && r.0->Err_0 == CustomError::UnableToOpen && r.1@.len() == 0,
            file_contents is Some ==> ({
                let ls = lines(file_contents->0@);
                &&& r.0 is Ok <==> (forall|k: int| 0 <= k < ls.len() ==> is_valid_word(#[trigger] ls[k]))
                &&& r.0 is Ok ==> r.0->Ok_0.wf() && r.0->Ok_0@ == Set::<Seq<char>>::empty()
                    && r.1@.len() == ls.len() && (forall|k: int|
                    0 <= k < ls.len() ==> #[trigger] r.1@[k]@ == normalize(ls[k]))
                &&& r.0 is Err ==> is_batch_error(r.0->Err_0, ls) && r.1@.len() == 0
            }),
    {
        match file_contents {
            None => (Err(CustomError::UnableToOpen), Vec::new()),
            Some(text) => {
                let mut contents = split_lines(text.as_str());
                let ghost ls = contents@;
                match validate_string(&mut contents) {
                    Ok(_) => {
                        proof {
                            assert forall|k: int| 0 <= k < ls.len() implies #[trigger] views(ls)[k] == ls[k]@ by {
                            }
                        }
                        (Ok(Trie::empty()), contents)
                    },
                    Err(e) => (Err(e), Vec::new()),
                }
            },
        }
    }

    /// Stores one word that is already case-folded.
    fn insert_word(&mut self, w: &Vec<char>) -> (r: bool)
        requires
            old(self).wf(),
            is_stored_word(w@),
            node_set(old(self)@).len() + w@.len() <= u32::MAX,
        ensures
            final(self).wf(),
            final(self)@ == old(self)@.insert(w@),
            r == !old(self)@.contains(w@),
            node_set(final(self)@).len() <= node_set(old(self)@).len() + w@.len(),
    {
        proof {
            self.lemma_paths();
            assert(w@.skip(0) =~= w@);
        }
        let ghost before = self.base_trie_node;
        let r = self.base_trie_node.add_word(w, 0);
        proof {
            let after = self.base_trie_node;
            let lp = longer_prefixes(w@, w@.len() - r.0);
            lemma_longer_prefixes_len(w@, w@.len() - r.0);
            assert(before.paths().disjoint(lp)) by {
                assert forall|t: Seq<char>| lp.contains(t) implies !before.paths().contains(t) by {
                    let k = choose|k: int| w@.len() - r.0 < k <= w@.len() && t == w@.take(k);
                    assert(!before.has_path(w@.skip(0).take(k)));
                }
            }
            vstd::set_lib::lemma_set_disjoint_lens(before.paths(), lp);
            after.lemma_paths_are_prefixes();
            assert(!node_set(after.words()).contains(Seq::empty()));
            assert(after.paths().finite());
            assert(node_set(after.words()) =~= after.paths().remove(Seq::empty()));
            assert(after.words() =~= before.words().insert(w@));
        }
        self.trie_size = self.trie_size + r.0;
        if r.1 {
            proof {
                assert(node_set(self@).contains(w@)) by {
                    assert(self@.contains(w@));
                    assert(w@.take(w@.len() as int) =~= w@);
                }
                assert(self@.subset_of(node_set(self@))) by {
                    assert forall|v: Seq<char>| self@.contains(v) implies node_set(self@).contains(v) by {
                        assert(v.take(v.len() as int) =~= v);
                    }
                }
                vstd::set_lib::lemma_len_subset(self@, node_set(self@));
            }
            self.num_words = self.num_words + 1;
        } else {
            assert(self@ =~= old(self)@);
        }
        proof {
            assert(!before.has_word(Seq::empty()));
            assert(!self.base_trie_node.words().contains(Seq::empty())) by {
                assert(w@ != Seq::<char>::empty());
            }
            assert(!self.base_trie_node.has_word(Seq::empty()));
            assert(self.base_trie_node.wf());
            assert(self@.finite());
            assert(self.num_words == self@.len());
            assert(node_set(self@).finite());
            assert(self.trie_size == node_set(self@).len());
            assert forall|v: Seq<char>| #[trigger] self@.contains(v) implies is_stored_word(v) by {
                if v != w@ {
                    assert(old(self)@.contains(v));
                }
            }
        }
        r.1
    }

    /// Adds a batch of words, all or nothing: every word is checked against
    /// the character policy first, and the batch is stored case-folded only if
    /// all of them pass. Words already stored are left as they are.
    pub fn add_words(&mut self, starting_words: Vec<String>) -> (r: Result<bool, CustomError>)
        requires
            old(self).wf(),
            node_set(old(self)@).len() + total_len(views(starting_words@)) <= u32::MAX,
        ensures
            final(self).wf(),
            r is Ok <==> (forall|k: int|
                0 <= k < starting_words@.len() ==> is_valid_word(#[trigger] starting_words@[k]@)),
            r is Ok ==> r->Ok_0 && final(self)@ == old(self)@.union(normalized_set(starting_words@)),
            r is Err ==> is_batch_error(r->Err_0, views(starting_words@)) && final(self)@ == old(self)@,
    {
        let ghost sw = starting_words@;
        let ghost old_words = self@;
        let mut words = starting_words;
        match validate_string(&mut words) {
            Err(e) => Err(e),
            Ok(_) => {
                let mut k: usize = 0;
                while k < words.len()
                    invariant
                        self.wf(),
                        words@.len() == sw.len(),
                        0 <= k <= sw.len(),
                        forall|j: int| 0 <= j < sw.len() ==> is_valid_word(#[trigger] sw[j]@),
                        forall|j: int| 0 <= j < sw.len() ==> #[trigger] words@[j]@ == normalize(sw[j]@),
                        self@ == old_words.union(normalized_set(sw.take(k as int))),
                        node_set(self@).len() <= node_set(old_words).len() + total_len(views(sw).take(k as int)),
                        node_set(old_words).len() + total_len(views(sw)) <= u32::MAX,
                    decreases sw.len() - k,
                {
                    let cs = chars_of(words[k].as_str());
                    proof {
                        let w = sw[k as int]@;
                        assert(views(sw)[k as int] == w);
                        lemma_total_len_take(views(sw), k as int);
                        assert(views(sw).take(k as int + 1).len() == k + 1);
                        assert(is_stored_word(cs@)) by {
                            assert forall|i: int| 0 <= i < cs@.len() implies is_lower_letter(#[trigger] cs@[i]) by {
                                assert(is_letter(w[i]));
                            }
                        }
                    }
                    self.insert_word(&cs);
                    k = k + 1;
                    proof {
                        assert(normalized_set(sw.take(k as int)) =~= normalized_set(sw.take(k - 1)).insert(cs@)) by {
                            assert forall|x: Seq<char>| #[trigger] normalized_set(sw.take(k as int)).contains(x) implies normalized_set(sw.take(k - 1)).insert(cs@).contains(x) by {
                                let j = choose|j: int| 0 <= j < k && x == normalize((#[trigger] sw.take(k as int)[j])@);
                                if j < k - 1 {
                                    assert(sw.take(k - 1)[j] == sw.take(k as int)[j]);
                                }
                            }
                            assert forall|x: Seq<char>| normalized_set(sw.take(k - 1)).insert(cs@).contains(x) implies #[trigger] normalized_set(sw.take(k as int)).contains(x) by {
                                if x == cs@ {
                                    assert(sw.take(k as int)[k - 1] == sw[k - 1]);
                                } else {
                                    let j = choose|j: int| 0 <= j < k - 1 && x == normalize((#[trigger] sw.take(k - 1)[j])@);
                                    assert(sw.take(k as int)[j] == sw.take(k - 1)[j]);
                                }
                            }
                        }
                    }
                }
                proof {
                    assert(sw.take(sw.len() as int) =~= sw);
                }
                Ok(true)
            },
        }
    }

    /// Whether the word, case-folded, is stored.
    pub fn does_word_exist(&self, s: String) -> (r: Result<bool, CustomError>)
        requires
            self.wf(),
        ensures
            r is Ok <==> is_valid_word(s@),
            r is Ok ==> r->Ok_0 == self@.contains(normalize(s@)),
            r is Err ==> is_error_for(r->Err_0, s@),
    {
        match validate_word(&s, false) {
            Err(e) => Err(e),
            Ok(cs) => {
                proof {
                    assert(cs@.skip(0) =~= cs@);
                }
                match self.base_trie_node.search_tree(&cs, 0) {
                    Some(n) => Ok(n.is_word),
                    None => Ok(false),
                }
            },
        }
    }

    /// Whether the word, case-folded, is a prefix of a stored word without
    /// being a stored word itself: a query that spells a whole stored word
    /// reports `false`.
    pub fn does_prefix_exist(&self, s: String) -> (r: Result<bool, CustomError>)
        requires
            self.wf(),
        ensures
            r is Ok <==> is_valid_word(s@),
            r is Ok ==> r->Ok_0 == (prefix_of_some(self@, normalize(s@)) && !self@.contains(normalize(s@))),
            r is Err ==> is_error_for(r->Err_0, s@),
    {
        match validate_word(&s, false) {
            Err(e) => Err(e),
            Ok(cs) => {
                proof {
                    assert(cs@.skip(0) =~= cs@);
                    self.lemma_paths();
                    let q = cs@;
                    assert(self.base_trie_node.paths().contains(q) == node_set(self@).contains(q));
                    if prefix_of_some(self@, q) {
                        let w = choose|w: Seq<char>| #[trigger] self@.contains(w) && q.len() <= w.len() && w.take(q.len() as int) == q;
                        assert(node_set(self@).contains(q));
                    }
                }
                match self.base_trie_node.search_tree(&cs, 0) {
                    Some(n) => Ok(!n.is_word),
                    None => Ok(false),
                }
            },
        }
    }

    /// The completions of a prefix: for each stored word that strictly extends
    /// the case-folded prefix, the part that follows it. The empty prefix is
    /// accepted and gives every stored word. The order is unspecified.
    pub fn autocomplete(&self, s: String) -> (r: Result<Vec<String>, CustomError>)
        requires
            self.wf(),
        ensures
            r is Ok <==> all_letters(s@),
            r is Ok ==> view_set(r->Ok_0@) == completions(self@, normalize(s@)) && distinct_from(r->Ok_0@, 0),
            r is Err ==> is_error_for(r->Err_0, s@),
    {
        match validate_word(&s, true) {
            Err(e) => Err(e),
            Ok(cs) => {
                proof {
                    assert(cs@.skip(0) =~= cs@);
                }
                let mut suffix_list: Vec<String> = Vec::new();
                match self.base_trie_node.search_tree(&cs, 0) {
                    Some(n) => {
                        let mut path: Vec<char> = Vec::new();
                        assert(path@ =~= Seq::<char>::empty());
                        n.autocomplete_below(&mut path, &mut suffix_list);
                        proof {
                            assert forall|x: Seq<char>| #[trigger] view_set(suffix_list@).contains(x) == completions(self@, cs@).contains(x) by {
                                self.base_trie_node.lemma_node_at_append(cs@, x);
                                assert(x.take(0) =~= Seq::<char>::empty());
                                assert(x.skip(0) =~= x);
                                assert(found(suffix_list@, 0, x) == n.word_ext(x, Seq::empty()));
                                assert(n.word_ext(x, Seq::empty()) == (x.len() > 0 && n.has_word(x)));
                                assert(n.has_word(x) == self.base_trie_node.has_word(cs@ + x));
                            }
                            assert(view_set(suffix_list@) =~= completions(self@, cs@));
                        }
                    },
                    None => {
                        proof {
                            assert forall|x: Seq<char>| !#[trigger] completions(self@, cs@).contains(x) by {
                                self.base_trie_node.lemma_node_at_append(cs@, x);
                            }
                            assert(view_set(suffix_list@) =~= completions(self@, cs@));
                        }
                    },
                }
                Ok(suffix_list)
            },
        }
    }

    /// Every stored word, in an unspecified order.
    pub fn entire_dictionary(&self) -> (r: Vec<String>)
        requires
            self.wf(),
        ensures
            view_set(r@) == self@,
            distinct_from(r@, 0),
    {
        let mut suffix_list: Vec<String> = Vec::new();
        let mut path: Vec<char> = Vec::new();
        assert(path@ =~= Seq::<char>::empty());
        self.base_trie_node.autocomplete_below(&mut path, &mut suffix_list);
        proof {
            assert forall|x: Seq<char>| #[trigger] view_set(suffix_list@).contains(x) == self@.contains(x) by {
                assert(x.take(0) =~= Seq::<char>::empty());
                assert(x.skip(0) =~= x);
                assert(found(suffix_list@, 0, x) == self.base_trie_node.word_ext(x, Seq::empty()));
                if x.len() == 0 {
                    assert(!self.base_trie_node.has_word(x));
                }
            }
            assert(view_set(suffix_list@) =~= self@);
        }
        suffix_list
    }

    /// Removes the word, case-folded, and every node that no other stored word
    /// needs. Returns whether the word was stored.
    pub fn delete_word(&mut self, s: String) -> (r: Result<bool, CustomError>)
        requires
            old(self).wf(),
        ensures
            final(self).wf(),
            r is Ok <==> is_valid_word(s@),
            r is Ok ==> r->Ok_0 == old(self)@.contains(normalize(s@)) && final(self)@ == old(self)@.remove(
                normalize(s@),
            ),
            r is Err ==> is_error_for(r->Err_0, s@) && final(self)@ == old(self)@,
    {
        match validate_word(&s, false) {
            Err(e) => Err(e),
            Ok(cs) => {
                if cs.len() > self.trie_size as usize {
                    proof {
                        if self@.contains(cs@) {
                            self.lemma_word_len(cs@);
                        }
                        assert(self@.remove(cs@) =~= self@);
                    }
                    return Ok(false);
                }
                proof {
                    assert(cs@.skip(0) =~= cs@);
                    self.lemma_paths();
                }
                let ghost before = self.base_trie_node;
                let r = self.base_trie_node.delete_from_trie(&cs, 0);
                proof {
                    let after = self.base_trie_node;
                    let q = cs@;
                    let lp = longer_prefixes(q, q.len() - r.1);
                    lemma_longer_prefixes_len(q, q.len() - r.1);
                    if r.0 {
                        assert(lp.subset_of(before.paths())) by {
                            assert forall|t: Seq<char>| lp.contains(t) implies before.paths().contains(t) by {
                                let k = choose|k: int| q.len() - r.1 < k <= q.len() && t == q.take(k);
                                before.lemma_prefix_path(q, k);
                            }
                        }
                        assert(before.paths().difference(lp) + lp =~= before.paths());
                        vstd::set_lib::lemma_len_subset(lp, before.paths());
                        vstd::set_lib::lemma_len_difference(before.paths(), lp);
                        vstd::set_lib::lemma_set_disjoint_lens(before.paths().difference(lp), lp);
                        assert(!lp.contains(Seq::empty()));
                    } else {
                        assert(lp =~= Set::empty());
                        assert(after.paths() =~= before.paths());
                    }
                    after.lemma_paths_are_prefixes();
                    assert(!node_set(after.words()).contains(Seq::empty()));
                    assert(node_set(after.words()) =~= after.paths().remove(Seq::empty()));
                    assert(!after.words().contains(Seq::empty()));
                    assert(!after.has_word(Seq::empty()));
                    if r.0 {
                        assert(before.words().contains(q));
                    } else {
                        assert(before.words().remove(q) =~= before.words());
                    }
                }
                if r.0 {
                    self.num_words = self.num_words - 1;
                    self.trie_size = self.trie_size - r.1;
                }
                proof {
                    assert forall|v: Seq<char>| #[trigger] self@.contains(v) implies is_stored_word(v) by {
                        assert(old(self)@.contains(v));
                    }
                }
                Ok(r.0)
            },
        }
    }

    /// Removes every stored word.
    pub fn delete_dictionary(&mut self)
        requires
            old(self).wf(),
        ensures
            final(self).wf(),
            final(self)@ == Set::<Seq<char>>::empty(),
    {
        let ghost all = self@;
        let dict = self.entire_dictionary();
        let mut i: usize = 0;
        while i < dict.len()
            invariant
                self.wf(),
                0 <= i <= dict@.len(),
                view_set(dict@) == all,
                forall|x: Seq<char>| #[trigger] all.contains(x) ==> is_stored_word(x),
                forall|x: Seq<char>|
                    #[trigger] self@.contains(x) == (all.contains(x) && !(exists|j: int|
                        0 <= j < i && (#[trigger] dict@[j])@ == x)),
            decreases dict.len() - i,
        {
            let w = dict[i].clone();
            proof {
                let x = dict@[i as int]@;
                assert(view_set(dict@).contains(x)) by {
                    assert(found(dict@, 0, x));
                }
                assert(all.contains(x));
            }
            let ghost before = self@;
            let _ = self.delete_word(w);
            proof {
                let x = dict@[i as int]@;
                assert(normalize(x) =~= x) by {
                    assert forall|k: int| 0 <= k < x.len() implies #[trigger] normalize(x)[k] == x[k] by {
                    }
                }
                assert forall|y: Seq<char>| #[trigger] self@.contains(y) == (all.contains(y) && !(exists|j: int|
                    0 <= j < i + 1 && (#[trigger] dict@[j])@ == y)) by {
                    if y != x {
                        if exists|j: int| 0 <= j < i + 1 && (#[trigger] dict@[j])@ == y {
                            let j = choose|j: int| 0 <= j < i + 1 && (#[trigger] dict@[j])@ == y;
                            assert(j != i);
                        }
                    }
                }
            }
            i = i + 1;
        }
        proof {
            assert forall|x: Seq<char>| !#[trigger] self@.contains(x) by {
                if all.contains(x) {
                    assert(view_set(dict@).contains(x));
                    let j = choose|j: int| 0 <= j < dict@.len() && (#[trigger] dict@[j])@ == x;
                }
            }
            assert(self@ =~= Set::<Seq<char>>::empty());
        }
    }

    /// The number of stored words and the number of nodes.
    pub fn get_metadata(&self) -> (r: (u32, u32))
        requires
            self.wf(),
        ensures
            r.0 == self@.len(),
            r.1 == node_set(self@).len(),
    {
        (self.num_words, self.trie_size)
    }
}

} // verus!
