//! A multiset of byte-string words: each word with how often it was seen.
use crate::bpe::{covers, expand, table, Unit, UnitMapInternal};
use crate::small::small_as_slice;
use vstd::prelude::*;

verus! {

broadcast use vstd::std_specs::hash::group_hash_axioms;

/// A word and its count.
pub type Entry = (Seq<u8>, nat);

/// No word stands twice in `e`.
pub open spec fn words_unique(e: Seq<Entry>) -> bool {
    forall|i: int, j: int| 0 <= i < j < e.len() ==> #[trigger] e[i].0 != #[trigger] e[j].0
}

/// `w` stands in `e`.
pub open spec fn has_word(e: Seq<Entry>, w: Seq<u8>) -> bool {
    exists|i: int| 0 <= i < e.len() && #[trigger] e[i].0 == w
}

/// Where `w` stands in `e`.
pub open spec fn word_index(e: Seq<Entry>, w: Seq<u8>) -> int {
    choose|i: int| 0 <= i < e.len() && #[trigger] e[i].0 == w
}

/// The count of `w` in `e`: zero where it is absent.
pub open spec fn count_of(e: Seq<Entry>, w: Seq<u8>) -> nat {
    if has_word(e, w) {
        e[word_index(e, w)].1
    } else {
        0
    }
}

/// `e` with `c` more of `w`: its entry grows, or a new entry comes last.
pub open spec fn add_word(e: Seq<Entry>, w: Seq<u8>, c: nat) -> Seq<Entry> {
    if has_word(e, w) {
        let i = word_index(e, w);
        e.update(i, (w, e[i].1 + c))
    } else {
        e.push((w, c))
    }
}

/// `a` with the entries of `b` added, in `b`'s order.
pub open spec fn merged(a: Seq<Entry>, b: Seq<Entry>) -> Seq<Entry>
    decreases b.len(),
{
    if b.len() == 0 {
        a
    } else {
        add_word(merged(a, b.drop_last()), b.last().0, b.last().1)
    }
}

/// One of each word of `ws`, counted, in order of first appearance.
pub open spec fn tally(ws: Seq<Seq<u8>>) -> Seq<Entry>
    decreases ws.len(),
{
    if ws.len() == 0 {
        seq![]
    } else {
        add_word(tally(ws.drop_last()), ws.last(), 1)
    }
}

/// `e` with a zero-count entry for each byte below `n` that `t` holds and `e` lacks.
pub open spec fn fill_bytes(e: Seq<Entry>, t: Map<Unit, Seq<u8>>, n: int) -> Seq<Entry>
    decreases n,
{
    if n <= 0 {
        e
    } else {
        let prev = fill_bytes(e, t, n - 1);
        let w = seq![(n - 1) as u8];
        if t.contains_key((n - 1) as Unit) && !has_word(prev, w) {
            prev.push((w, 0))
        } else {
            prev
        }
    }
}

/// The entries of the dictionary of the units `s` under the table `t`.
pub open spec fn entries_of_units(s: Seq<Unit>, t: Map<Unit, Seq<u8>>) -> Seq<Entry> {
    fill_bytes(tally(s.map(|_i: int, u: Unit| t[u])), t, 256)
}

/// The total length of the text that `e` counts: each word's length times its count.
pub open spec fn weight(e: Seq<Entry>) -> nat
    decreases e.len(),
{
    if e.len() == 0 {
        0
    } else {
        weight(e.drop_last()) + e.last().0.len() * e.last().1
    }
}

pub struct Dictionary {
    words: Vec<(Vec<u8>, usize)>,
}

impl Dictionary {
    /// The words and their counts, in the order of first insertion.
    pub closed spec fn entries(&self) -> Seq<Entry> {
        self.words@.map_values(|e: (Vec<u8>, usize)| (e.0@, e.1 as nat))
    }

    /// Each word stands once.
    pub open spec fn wf(&self) -> bool {
        words_unique(self.entries())
    }

    proof fn lemma_entries(&self)
        ensures
            self.entries().len() == self.words@.len(),
            forall|i: int| 0 <= i < self.words@.len() ==> #[trigger] self.entries()[i] == (self.words@[i].0@, self.words@[i].1 as nat),
    {
    }

    pub fn empty() -> (r: Self)
        ensures
            r.wf(),
            r.entries() == Seq::<Entry>::empty(),
    {
        let r = Dictionary { words: Vec::new() };
        assert(r.entries() =~= Seq::<Entry>::empty());
        r
    }

    pub fn len(&self) -> (r: usize)
        ensures
            r == self.entries().len(),
    {
        self.words.len()
    }

    /// The words with their counts.
    pub fn iter(&self) -> (r: &[(Vec<u8>, usize)])
        ensures
            r@.len() == self.entries().len(),
            forall|i: int| 0 <= i < r@.len() ==> (#[trigger] r@[i].0@, r@[i].1 as nat) == self.entries()[i],
    {
        proof {
            self.lemma_entries();
        }
        self.words.as_slice()
    }

    /// Where `w` stands, if it does.
    fn find(&self, w: &[u8]) -> (r: Option<usize>)
        requires
            self.wf(),
        ensures
            match r {
                Some(i) => has_word(self.entries(), w@) && i == word_index(self.entries(), w@),
                None => !has_word(self.entries(), w@),
            },
    {
        proof {
            self.lemma_entries();
        }
        let mut i: usize = 0;
        while i < self.words.len()
            invariant
                i <= self.words@.len(),
                self.wf(),
                self.entries().len() == self.words@.len(),
                forall|j: int| 0 <= j < self.words@.len() ==> #[trigger] self.entries()[j] == (self.words@[j].0@, self.words@[j].1 as nat),
                forall|j: int| 0 <= j < i ==> #[trigger] self.entries()[j].0 != w@,
            decreases self.words@.len() - i,
        {
            if same_bytes(self.words[i].0.as_slice(), w) {
                proof {
                    let k = word_index(self.entries(), w@);
                    assert(self.entries()[i as int].0 == w@);
                    assert(has_word(self.entries(), w@));
                    if k < i {
                        assert(self.entries()[k].0 == self.entries()[i as int].0);
                    } else if k > i {
                        assert(self.entries()[k].0 == self.entries()[i as int].0);
                    }
                }
                return Some(i);
            }
            i += 1;
        }
        None
    }

    pub fn get(&self, word: &[u8]) -> (r: Option<usize>)
        requires
            self.wf(),
        ensures
            match r {
                Some(c) => has_word(self.entries(), word@) && c == count_of(self.entries(), word@),
                None => !has_word(self.entries(), word@),
            },
    {
        proof {
            self.lemma_entries();
        }
        match self.find(word) {
            Some(i) => Some(self.words[i].1),
            None => None,
        }
    }

    /// Each word as text, in the order of `entries`.
    pub fn get_words_as_strings(&self) -> (r: Vec<String>)
        ensures
            r@.len() == self.entries().len(),
            forall|i: int| 0 <= i < r@.len() ==> #[trigger] r@[i]@ == lossy_text(self.entries()[i].0),
    {
        proof {
            self.lemma_entries();
        }
        let mut r: Vec<String> = Vec::new();
        let mut i: usize = 0;
        while i < self.words.len()
            invariant
                i <= self.words@.len(),
                r@.len() == i,
                self.entries().len() == self.words@.len(),
                forall|j: int| 0 <= j < self.words@.len() ==> #[trigger] self.entries()[j] == (self.words@[j].0@, self.words@[j].1 as nat),
                forall|j: int| 0 <= j < i ==> #[trigger] r@[j]@ == lossy_text(self.entries()[j].0),
            decreases self.words@.len() - i,
        {
            r.push(lossy_string(self.words[i].0.as_slice()));
            i += 1;
        }
        r
    }

    /// Whether `other` can be merged in without a count passing `usize::MAX`.
    pub fn can_merge(&self, other: &Dictionary) -> (r: bool)
        requires
            self.wf(),
            other.wf(),
        ensures
            r == merge_fits(self.entries(), other.entries()),
    {
        proof {
            self.lemma_entries();
            other.lemma_entries();
        }
        let ghost a = self.entries();
        let ghost b = other.entries();
        let mut i: usize = 0;
        while i < other.words.len()
            invariant
                i <= other.words@.len(),
                self.wf(),
                other.wf(),
                a == self.entries(),
                b == other.entries(),
                b.len() == other.words@.len(),
                a.len() == self.words@.len(),
                forall|j: int| 0 <= j < other.words@.len() ==> #[trigger] b[j] == (other.words@[j].0@, other.words@[j].1 as nat),
                forall|j: int| 0 <= j < self.words@.len() ==> #[trigger] a[j] == (self.words@[j].0@, self.words@[j].1 as nat),
                forall|j: int| 0 <= j < i ==> count_of(a, #[trigger] b[j].0) + b[j].1 <= usize::MAX,
            decreases other.words@.len() - i,
        {
            let c = other.words[i].1;
            match self.find(other.words[i].0.as_slice()) {
                Some(k) => {
                    proof {
                        lemma_index_of(a, k as int);
                    }
                    if self.words[k].1 > usize::MAX - c {
                        proof {
                            lemma_index_of(b, i as int);
                        }
                        return false;
                    }
                },
                None => {},
            }
            i += 1;
        }
        assert forall|w: Seq<u8>| #[trigger] count_of(a, w) + count_of(b, w) <= usize::MAX by {
            if has_word(a, w) {
                lemma_index_of(a, word_index(a, w));
            }
            if has_word(b, w) {
                lemma_index_of(b, word_index(b, w));
            }
        }
        true
    }

    /// The indices of the entries seen at least once, by descending count; equal
    /// counts keep the order of `entries`.
    pub fn ranked_indices(&self) -> (r: Vec<usize>)
        ensures
            is_ranking(self.entries(), r@),
    {
        proof {
            self.lemma_entries();
        }
        let ghost e = self.entries();
        let mut r: Vec<usize> = Vec::new();
        let mut i: usize = 0;
        while i < self.words.len()
            invariant
                i <= self.words@.len(),
                e == self.entries(),
                e.len() == self.words@.len(),
                forall|j: int| 0 <= j < self.words@.len() ==> #[trigger] e[j] == (self.words@[j].0@, self.words@[j].1 as nat),
                r@.no_duplicates(),
                forall|k: int| 0 <= k < r@.len() ==> #[trigger] r@[k] < i && e[r@[k] as int].1 > 0,
                forall|j: int| 0 <= j < i && e[j].1 > 0 ==> #[trigger] r@.contains(j as usize),
                ranked_sorted(e, r@),
            decreases self.words@.len() - i,
        {
            let c = self.words[i].1;
            if c > 0 {
                let mut p: usize = 0;
                while p < r.len() && self.words[r[p]].1 >= c
                    invariant
                        i < self.words@.len(),
                        p <= r@.len(),
                        c == self.words@[i as int].1,
                        forall|k: int| 0 <= k < r@.len() ==> #[trigger] r@[k] < i,
                        forall|k: int| 0 <= k < p ==> self.words@[#[trigger] r@[k] as int].1 >= c,
                    decreases r@.len() - p,
                {
                    p += 1;
                }
                let ghost old_r = r@;
                r.insert(p, i);
                proof {
                    assert(r@ == old_r.insert(p as int, i));
                    assert forall|a: int, b: int| 0 <= a < b < r@.len() && r@[a] == r@[b] implies false by {
                        if a < p && b > p {
                            assert(r@[b] == old_r[b - 1]);
                        } else if a > p {
                            assert(old_r[a - 1] == old_r[b - 1]);
                        } else if b < p {
                            assert(old_r[a] == old_r[b]);
                        } else if a == p {
                            assert(r@[b] == old_r[b - 1]);
                        } else {
                            assert(r@[a] == old_r[a]);
                        }
                    }
                    assert forall|k: int| 0 <= k < r@.len() implies #[trigger] r@[k] < i + 1 && e[r@[k] as int].1 > 0 by {
                        if k < p {
                            assert(r@[k] == old_r[k]);
                        } else if k > p {
                            assert(r@[k] == old_r[k - 1]);
                        }
                    }
                    assert forall|j: int| 0 <= j < i + 1 && e[j].1 > 0 implies #[trigger] r@.contains(j as usize) by {
                        if j < i {
                            assert(old_r.contains(j as usize));
                            let k = choose|k: int| 0 <= k < old_r.len() && old_r[k] == j as usize;
                            if k < p {
                                assert(r@[k] == j as usize);
                            } else {
                                assert(r@[k + 1] == j as usize);
                            }
                        } else {
                            assert(r@[p as int] == i);
                        }
                    }
                    assert forall|a: int, b: int| 0 <= a < b < r@.len() implies #[trigger] ranks_before(e, r@[a], r@[b]) by {
                        if p < old_r.len() {
                            assert(e[old_r[p as int] as int].1 < e[i as int].1);
                        }
                        if b > p && a < p {
                            assert(r@[b] == old_r[b - 1]);
                            assert(ranks_before(e, old_r[a], old_r[b - 1]));
                            if b - 1 > p {
                                assert(ranks_before(e, old_r[p as int], old_r[b - 1]));
                            }
                        } else if a == p && b > p {
                            assert(r@[b] == old_r[b - 1]);
                            if b - 1 > p {
                                assert(ranks_before(e, old_r[p as int], old_r[b - 1]));
                            }
                        } else if a < p && b == p {
                            assert(r@[a] == old_r[a]);
                        } else if b < p {
                            assert(ranks_before(e, old_r[a], old_r[b]));
                        } else if a > p {
                            assert(ranks_before(e, old_r[a - 1], old_r[b - 1]));
                        }
                    }
                }
            }
            i += 1;
        }
        r
    }

    /// Adds each word of `other` with its count.
    pub fn merge(&mut self, other: &Dictionary)
        requires
            old(self).wf(),
            other.wf(),
            merge_fits(old(self).entries(), other.entries()),
        ensures
            final(self).wf(),
            final(self).entries() == merged(old(self).entries(), other.entries()),
            forall|w: Seq<u8>| #[trigger] count_of(final(self).entries(), w) == count_of(old(self).entries(), w)
                + count_of(other.entries(), w),
    {
        let ghost a = self.entries();
        let ghost b = other.entries();
        proof {
            other.lemma_entries();
        }
        let mut i: usize = 0;
        while i < other.words.len()
            invariant
                i <= other.words@.len(),
                self.wf(),
                other.wf(),
                words_unique(a),
                b == other.entries(),
                b.len() == other.words@.len(),
                forall|j: int| 0 <= j < other.words@.len() ==> #[trigger] b[j] == (other.words@[j].0@, other.words@[j].1 as nat),
                merge_fits(a, b),
                self.entries() == merged(a, b.take(i as int)),
            decreases other.words@.len() - i,
        {
            let ghost w = b[i as int].0;
            proof {
                assert(b.take(i as int + 1).drop_last() =~= b.take(i as int));
                assert(words_unique(b.take(i as int)));
                lemma_merged_counts(a, b.take(i as int));
                if has_word(b.take(i as int), w) {
                    let k = word_index(b.take(i as int), w);
                    assert(b[k].0 == b[i as int].0);
                }
                lemma_index_of(b, i as int);
                assert(count_of(a, w) + count_of(b, w) <= usize::MAX);
            }
            self.add_count(other.words[i].0.as_slice(), other.words[i].1);
            i += 1;
        }
        assert(b.take(i as int) =~= b);
        proof {
            lemma_merged_counts(a, b);
        }
    }

    /// Counts the expansion of each unit of `units`; with every single-byte unit of
    /// the table that no unit expands to listed at zero.
    pub fn from_units(units: &[Unit], unit_map: &UnitMapInternal) -> (r: Self)
        requires
            covers(table(*unit_map), units@),
        ensures
            r.wf(),
            r.entries() == entries_of_units(units@, table(*unit_map)),
            weight(r.entries()) == expand(units@, table(*unit_map)).len(),
    {
        let ghost t = table(*unit_map);
        let ghost ws = units@.map(|_i: int, u: Unit| t[u]);
        let mut result = Dictionary::empty();
        let mut i: usize = 0;
        while i < units.len()
            invariant
                i <= units@.len(),
                t == table(*unit_map),
                covers(t, units@),
                ws == units@.map(|_i: int, u: Unit| t[u]),
                result.wf(),
                result.entries() == tally(ws.take(i as int)),
                weight(result.entries()) == expand(units@.take(i as int), t).len(),
                forall|w: Seq<u8>| #[trigger] count_of(result.entries(), w) <= i,
            decreases units@.len() - i,
        {
            let u = units[i];
            assert(t.contains_key(units@[i as int]));
            let word = small_as_slice(unit_map.get(&u).unwrap());
            let ghost before = result.entries();
            proof {
                assert(count_of(before, word@) <= i);
            }
            result.add_count(word, 1);
            proof {
                assert(ws.take(i + 1).drop_last() =~= ws.take(i as int));
                assert(ws.take(i + 1).last() == word@);
                lemma_add_word_weight(before, word@, 1);
                crate::bpe::lemma_expand_take(units@, i as int, t);
                assert forall|w: Seq<u8>| #[trigger] count_of(result.entries(), w) <= i + 1 by {
                    lemma_count_add(before, word@, 1, w);
                }
            }
            i += 1;
        }
        assert(ws.take(i as int) =~= ws);
        assert(units@.take(i as int) =~= units@);
        let ghost tallied = result.entries();
        let mut b: u32 = 0;
        while b < 256
            invariant
                b <= 256,
                t == table(*unit_map),
                result.wf(),
                result.entries() == fill_bytes(tallied, t, b as int),
                weight(result.entries()) == weight(tallied),
            decreases 256 - b,
        {
            if unit_map.contains_key(&b) {
                let w = vec![b as u8];
                if result.find(w.as_slice()).is_none() {
                    let ghost before = result.entries();
                    result.add_count(w.as_slice(), 0);
                    proof {
                        lemma_add_word_weight(before, w@, 0);
                        assert(w@ =~= seq![b as u8]);
                    }
                } else {
                    assert(w@ =~= seq![b as u8]);
                }
            }
            b += 1;
        }
        result
    }

    /// Adds `c` to the count of `w`.
    fn add_count(&mut self, w: &[u8], c: usize)
        requires
            old(self).wf(),
            count_of(old(self).entries(), w@) + c <= usize::MAX,
        ensures
            final(self).wf(),
            final(self).entries() == add_word(old(self).entries(), w@, c as nat),
    {
        proof {
            self.lemma_entries();
        }
        match self.find(w) {
            Some(i) => {
                let ghost e = self.entries();
                let ghost ws = self.words@;
                assert(e[i as int].0 == w@);
                let (word, n) = self.words.remove(i);
                self.words.insert(i, (word, n + c));
                assert(self.words@ =~= ws.update(i as int, (word, (n + c) as usize)));
                proof {
                    self.lemma_entries();
                }
                assert(self.entries() =~= e.update(i as int, (w@, e[i as int].1 + c as nat)));
            },
            None => {
                let ghost e = self.entries();
                let ghost ws = self.words@;
                let mut v: Vec<u8> = Vec::new();
                v.extend_from_slice(w);
                assert(v@ =~= w@);
                self.words.push((v, c));
                assert(self.words@ =~= ws.push((v, c)));
                proof {
                    self.lemma_entries();
                }
                assert(self.entries() =~= e.push((w@, c as nat)));
            },
        }
        proof {
            self.lemma_entries();
            lemma_add_word_unique(old(self).entries(), w@, c as nat);
        }
        assert(self.entries() =~= add_word(old(self).entries(), w@, c as nat));
    }
}

/// Entry `a` of `e` comes before entry `b` in a ranking: a higher count, or an
/// equal count and an earlier place.
pub open spec fn ranks_before(e: Seq<Entry>, a: usize, b: usize) -> bool {
    e[a as int].1 > e[b as int].1 || (e[a as int].1 == e[b as int].1 && a < b)
}

/// Any two places of `order` are ranked.
pub open spec fn ranked_sorted(e: Seq<Entry>, order: Seq<usize>) -> bool {
    forall|a: int, b: int| 0 <= a < b < order.len() ==> #[trigger] ranks_before(e, order[a], order[b])
}

/// `order` lists the places of the entries of `e` with a count above zero, each
/// once, ranked.
pub open spec fn is_ranking(e: Seq<Entry>, order: Seq<usize>) -> bool {
    &&& order.no_duplicates()
    &&& forall|k: int| 0 <= k < order.len() ==> #[trigger] order[k] < e.len() && e[order[k] as int].1 > 0
    &&& forall|j: int| 0 <= j < e.len() && e[j].1 > 0 ==> #[trigger] order.contains(j as usize)
    &&& ranked_sorted(e, order)
}

/// What `String::from_utf8_lossy` makes of the bytes `b`.
pub uninterp spec fn lossy_text(b: Seq<u8>) -> Seq<char>;

/// Relies on `String::from_utf8_lossy`: the text of the bytes, with each invalid
/// sequence replaced by U+FFFD; no bytes give no text.
#[verifier::external_body]
fn lossy_string(b: &[u8]) -> (r: String)
    ensures
        r@ == lossy_text(b@),
        b@.len() == 0 ==> r@.len() == 0,
{
    String::from_utf8_lossy(b).to_string()
}

/// The two byte strings are equal.
fn same_bytes(a: &[u8], b: &[u8]) -> (r: bool)
    ensures
        r == (a@ == b@),
{
    if a.len() != b.len() {
        return false;
    }
    let mut i: usize = 0;
    while i < a.len()
        invariant
            i <= a@.len(),
            a@.len() == b@.len(),
            forall|j: int| 0 <= j < i ==> a@[j] == b@[j],
        decreases a@.len() - i,
    {
        if a[i] != b[i] {
            return false;
        }
        i += 1;
    }
    assert(a@ =~= b@);
    true
}

/// Adding a word keeps the words unique.
pub proof fn lemma_add_word_unique(e: Seq<Entry>, w: Seq<u8>, c: nat)
    requires
        words_unique(e),
    ensures
        words_unique(add_word(e, w, c)),
{
    if has_word(e, w) {
        let i = word_index(e, w);
        assert(e[i].0 == w);
    }
}

/// In a list of unique words, the entry at `i` is where its word stands.
pub proof fn lemma_index_of(e: Seq<Entry>, i: int)
    requires
        words_unique(e),
        0 <= i < e.len(),
    ensures
        has_word(e, e[i].0),
        word_index(e, e[i].0) == i,
        count_of(e, e[i].0) == e[i].1,
{
    assert(has_word(e, e[i].0));
    let k = word_index(e, e[i].0);
    if k < i {
        assert(e[k].0 == e[i].0);
    } else if k > i {
        assert(e[k].0 == e[i].0);
    }
}

/// Adding `c` of `w` adds `c` to the count of `w` and leaves the other counts.
pub proof fn lemma_count_add(e: Seq<Entry>, w: Seq<u8>, c: nat, v: Seq<u8>)
    requires
        words_unique(e),
    ensures
        count_of(add_word(e, w, c), v) == count_of(e, v) + if v == w {
            c
        } else {
            0
        },
{
    let e2 = add_word(e, w, c);
    lemma_add_word_unique(e, w, c);
    if has_word(e, w) {
        let i = word_index(e, w);
        lemma_index_of(e, i);
        if v == w {
            lemma_index_of(e2, i);
        } else if has_word(e, v) {
            let j = word_index(e, v);
            lemma_index_of(e, j);
            lemma_index_of(e2, j);
        } else {
            assert(!has_word(e2, v)) by {
                if has_word(e2, v) {
                    let k = word_index(e2, v);
                    assert(e[k].0 == v);
                }
            }
        }
    } else {
        if v == w {
            lemma_index_of(e2, e.len() as int);
        } else if has_word(e, v) {
            let j = word_index(e, v);
            lemma_index_of(e, j);
            lemma_index_of(e2, j);
        } else {
            assert(!has_word(e2, v)) by {
                if has_word(e2, v) {
                    let k = word_index(e2, v);
                    assert(e[k].0 == v);
                }
            }
        }
    }
}

/// The last entry of a list of unique words is a word of none of the others.
proof fn lemma_last_is_new(b: Seq<Entry>)
    requires
        words_unique(b),
        b.len() > 0,
    ensures
        words_unique(b.drop_last()),
        !has_word(b.drop_last(), b.last().0),
        add_word(b.drop_last(), b.last().0, b.last().1) == b,
{
    let d = b.drop_last();
    if has_word(d, b.last().0) {
        let k = word_index(d, b.last().0);
        assert(b[k].0 == b[b.len() - 1].0);
    }
    assert(d.push((b.last().0, b.last().1)) =~= b);
}

/// Merging adds the counts word by word, and keeps the words unique.
pub proof fn lemma_merged_counts(a: Seq<Entry>, b: Seq<Entry>)
    requires
        words_unique(a),
        words_unique(b),
    ensures
        words_unique(merged(a, b)),
        forall|v: Seq<u8>| #[trigger] count_of(merged(a, b), v) == count_of(a, v) + count_of(b, v),
    decreases b.len(),
{
    if b.len() == 0 {
        assert forall|v: Seq<u8>| #[trigger] count_of(merged(a, b), v) == count_of(a, v) + count_of(b, v) by {
            assert(!has_word(b, v));
        }
    } else {
        let d = b.drop_last();
        let (w, c) = b.last();
        lemma_last_is_new(b);
        lemma_merged_counts(a, d);
        lemma_add_word_unique(merged(a, d), w, c);
        assert forall|v: Seq<u8>| #[trigger] count_of(merged(a, b), v) == count_of(a, v) + count_of(b, v) by {
            lemma_count_add(merged(a, d), w, c, v);
            lemma_count_add(d, w, c, v);
        }
    }
}

proof fn lemma_update_weight(e: Seq<Entry>, i: int, c: nat)
    requires
        0 <= i < e.len(),
    ensures
        weight(e.update(i, (e[i].0, e[i].1 + c))) == weight(e) + e[i].0.len() * c,
    decreases e.len(),
{
    let u = e.update(i, (e[i].0, e[i].1 + c));
    if i == e.len() - 1 {
        assert(u.drop_last() =~= e.drop_last());
        let l = e[i].0.len();
        let n = e[i].1;
        assert(l * (n + c) == l * n + l * c) by (nonlinear_arith);
    } else {
        assert(u.drop_last() =~= e.drop_last().update(i, (e[i].0, e[i].1 + c)));
        lemma_update_weight(e.drop_last(), i, c);
    }
}

/// Adding `c` of `w` adds `c` times the length of `w` to the weight.
pub proof fn lemma_add_word_weight(e: Seq<Entry>, w: Seq<u8>, c: nat)
    ensures
        weight(add_word(e, w, c)) == weight(e) + w.len() * c,
{
    if has_word(e, w) {
        let i = word_index(e, w);
        lemma_update_weight(e, i, c);
    } else {
        assert(e.push((w, c)).drop_last() =~= e);
    }
}

/// The weight of a merge is the sum of the two weights.
pub proof fn lemma_merged_weight(a: Seq<Entry>, b: Seq<Entry>)
    ensures
        weight(merged(a, b)) == weight(a) + weight(b),
    decreases b.len(),
{
    if b.len() > 0 {
        lemma_merged_weight(a, b.drop_last());
        lemma_add_word_weight(merged(a, b.drop_last()), b.last().0, b.last().1);
    }
}

/// Merging the empty dictionary into `d`, or `d` into the empty one, gives `d` back.
pub proof fn lemma_merge_empty(d: Seq<Entry>)
    requires
        words_unique(d),
    ensures
        merged(d, seq![]) == d,
        merged(seq![], d) == d,
    decreases d.len(),
{
    if d.len() > 0 {
        lemma_last_is_new(d);
        lemma_merge_empty(d.drop_last());
    }
}

/// Merges the dictionaries in order, starting from the empty one.
pub open spec fn merge_all(ds: Seq<Seq<Entry>>) -> Seq<Entry>
    decreases ds.len(),
{
    if ds.len() == 0 {
        seq![]
    } else {
        merged(merge_all(ds.drop_last()), ds.last())
    }
}

/// The concatenation of the chunks, in order.
pub open spec fn concat(chunks: Seq<Seq<u8>>) -> Seq<u8>
    decreases chunks.len(),
{
    if chunks.len() == 0 {
        seq![]
    } else {
        concat(chunks.drop_last()) + chunks.last()
    }
}

/// Dictionaries trained chunk by chunk and merged count all the bytes of the
/// chunks together: each chunk's weight is its length, so the merge's weight is
/// the total length.
pub proof fn lemma_partition_weight(ds: Seq<Seq<Entry>>, chunks: Seq<Seq<u8>>)
    requires
        ds.len() == chunks.len(),
        forall|i: int| 0 <= i < ds.len() ==> weight(#[trigger] ds[i]) == chunks[i].len(),
    ensures
        weight(merge_all(ds)) == concat(chunks).len(),
    decreases ds.len(),
{
    if ds.len() > 0 {
        let n = ds.len() - 1;
        assert forall|i: int| 0 <= i < n implies weight(#[trigger] ds.drop_last()[i]) == chunks.drop_last()[i].len() by {
            assert(ds.drop_last()[i] == ds[i]);
        }
        lemma_partition_weight(ds.drop_last(), chunks.drop_last());
        lemma_merged_weight(merge_all(ds.drop_last()), ds.last());
        assert(weight(ds[n]) == chunks[n].len());
    }
}

/// The counts of `a` and `b` add up within `usize`.
pub open spec fn merge_fits(a: Seq<Entry>, b: Seq<Entry>) -> bool {
    forall|w: Seq<u8>| #[trigger] count_of(a, w) + count_of(b, w) <= usize::MAX
}

/// Merging is commutative and associative in what it counts: every word gets the
/// same count whichever order the dictionaries are merged in.
pub proof fn lemma_merge_order_free(a: Seq<Entry>, b: Seq<Entry>, c: Seq<Entry>, w: Seq<u8>)
    requires
        words_unique(a),
        words_unique(b),
        words_unique(c),
    ensures
        count_of(merged(a, b), w) == count_of(merged(b, a), w),
        count_of(merged(merged(a, b), c), w) == count_of(merged(a, merged(b, c)), w),
{
    lemma_merged_counts(a, b);
    lemma_merged_counts(b, a);
    lemma_merged_counts(b, c);
    lemma_merged_counts(merged(a, b), c);
    lemma_merged_counts(a, merged(b, c));
}

} // verus!
