//! Logram's n-gram dictionaries and the matching of a message against them:
//! a token is taken for a variable when the 3-grams and then the 2-grams
//! around it are rare in the dictionaries.
use vstd::prelude::*;
use vstd::hash_map::StringHashMap;
use crate::digest::{template_id, template_id_of};
use crate::text::{chars_of, string_from_chars, trim, trim_str};

verus! {

/// The 2-gram key `a^b`.
pub open spec fn key2(a: Seq<char>, b: Seq<char>) -> Seq<char> {
    a + seq!['^'] + b
}

/// The 3-gram key `a^b^c`.
pub open spec fn key3(a: Seq<char>, b: Seq<char>, c: Seq<char>) -> Seq<char> {
    a + seq!['^'] + b + seq!['^'] + c
}

/// The views of a sequence of strings.
pub open spec fn strs(v: Seq<String>) -> Seq<Seq<char>> {
    Seq::new(v.len(), |i: int| v[i]@)
}

/// The count of `key` after one more occurrence: 1 for a new key, one more
/// otherwise, staying at `i32::MAX` once there.
pub open spec fn bumped(d: Map<Seq<char>, i32>, key: Seq<char>) -> i32 {
    if d.contains_key(key) {
        if d[key] < i32::MAX {
            (d[key] + 1) as i32
        } else {
            d[key]
        }
    } else {
        1
    }
}

/// A dictionary from n-gram keys to their number of occurrences, which also
/// keeps its keys in the order they came in, so that it can be listed.
pub struct NgramDictionary {
    counts: StringHashMap<i32>,
    keys: Vec<String>,
}

impl View for NgramDictionary {
    type V = Map<Seq<char>, i32>;

    closed spec fn view(&self) -> Map<Seq<char>, i32> {
        self.counts@
    }
}

/// `k` is one of `keys`.
pub open spec fn key_listed(keys: Seq<String>, k: Seq<char>) -> bool {
    exists|i: int| 0 <= i < keys.len() && (#[trigger] keys[i])@ == k
}

impl NgramDictionary {
    /// The list of keys holds each key of the map once, and nothing else.
    #[verifier::type_invariant]
    spec fn keys_listed(&self) -> bool {
        &&& forall|i: int, j: int|
            0 <= i < j < self.keys@.len() ==> (#[trigger] self.keys@[i])@ != (#[trigger] self.keys@[j])@
        &&& forall|i: int| 0 <= i < self.keys@.len() ==> self.counts@.contains_key((#[trigger] self.keys@[i])@)
        &&& forall|k: Seq<char>| #[trigger] self.counts@.contains_key(k) ==> key_listed(self.keys@, k)
    }

    /// The empty dictionary.
    pub fn new() -> (r: Self)
        ensures
            r@ == Map::<Seq<char>, i32>::empty(),
    {
        NgramDictionary { counts: StringHashMap::new(), keys: Vec::new() }
    }

    /// Sets the count of `key`.
    pub fn insert(&mut self, key: String, count: i32)
        ensures
            final(self)@ == old(self)@.insert(key@, count),
    {
        proof {
            use_type_invariant(&*self);
        }
        let mut taken = NgramDictionary::new();
        std::mem::swap(self, &mut taken);
        proof {
            use_type_invariant(&taken);
        }
        let NgramDictionary { mut counts, mut keys } = taken;
        let ghost kv = key@;
        let ghost old_keys = keys@;
        let ghost old_counts = counts@;
        if !counts.contains_key(key.as_str()) {
            keys.push(key.clone());
            proof {
                assert forall|i: int, j: int| 0 <= i < j < keys@.len() implies (#[trigger] keys@[i])@
                    != (#[trigger] keys@[j])@ by {
                    if j == old_keys.len() {
                        assert(keys@[i] == old_keys[i]);
                        assert(old_counts.contains_key(old_keys[i]@));
                    } else {
                        assert(keys@[i] == old_keys[i]);
                        assert(keys@[j] == old_keys[j]);
                    }
                }
            }
        }
        counts.insert(key, count);
        proof {
            assert forall|i: int| 0 <= i < keys@.len() implies counts@.contains_key((#[trigger] keys@[i])@) by {
                if i < old_keys.len() {
                    assert(keys@[i] == old_keys[i]);
                }
            }
            assert forall|k: Seq<char>| #[trigger] counts@.contains_key(k) implies key_listed(keys@, k) by {
                if old_counts.contains_key(k) {
                    let i = choose|i: int| 0 <= i < old_keys.len() && (#[trigger] old_keys[i])@ == k;
                    assert(keys@[i] == old_keys[i]);
                } else {
                    assert(k == kv);
                    assert(keys@[keys@.len() - 1]@ == kv);
                }
            }
        }
        *self = NgramDictionary { counts, keys };
    }

    /// The count of `key`, if it is in the dictionary.
    pub fn get(&self, key: &str) -> (r: Option<i32>)
        ensures
            r == (if self@.contains_key(key@) {
                Some(self@[key@])
            } else {
                None
            }),
    {
        match self.counts.get(key) {
            Some(c) => Some(*c),
            None => None,
        }
    }

    /// Number of keys.
    pub fn len(&self) -> (r: usize)
        ensures
            r == self@.len(),
    {
        self.counts.len()
    }

    /// Counts one more occurrence of `key` (see [`bumped`]).
    pub fn add_occurrence(&mut self, key: String)
        ensures
            final(self)@ == old(self)@.insert(key@, bumped(old(self)@, key@)),
    {
        let c = match self.counts.get(key.as_str()) {
            Some(c) => if *c < i32::MAX {
                *c + 1
            } else {
                *c
            },
            None => 1,
        };
        self.insert(key, c);
    }

    /// The keys and their counts, each key once, in the order the keys
    /// came in.
    pub fn entries(&self) -> (r: Vec<(String, i32)>)
        ensures
            forall|i: int|
                0 <= i < r@.len() ==> self@.contains_key((#[trigger] r@[i]).0@) && r@[i].1 == self@[r@[i].0@],
            forall|i: int, j: int| 0 <= i < j < r@.len() ==> (#[trigger] r@[i]).0@ != (#[trigger] r@[j]).0@,
            forall|k: Seq<char>|
                #[trigger] self@.contains_key(k) ==> exists|i: int| 0 <= i < r@.len() && (#[trigger] r@[i]).0@ == k,
    {
        proof {
            use_type_invariant(self);
        }
        let mut r: Vec<(String, i32)> = Vec::new();
        let mut i: usize = 0;
        while i < self.keys.len()
            invariant
                i <= self.keys@.len(),
                r@.len() == i,
                forall|j: int| 0 <= j < i ==> (#[trigger] r@[j]).0@ == self.keys@[j]@ && r@[j].1 == self.counts@[self.keys@[j]@],
                forall|j: int| 0 <= j < self.keys@.len() ==> self.counts@.contains_key((#[trigger] self.keys@[j])@),
            decreases self.keys@.len() - i,
        {
            let k = &self.keys[i];
            let c = match self.counts.get(k.as_str()) {
                Some(c) => *c,
                None => vstd::pervasive::unreached(),
            };
            r.push((k.clone(), c));
            i = i + 1;
        }
        proof {
            assert forall|a: int, b: int| 0 <= a < b < r@.len() implies (#[trigger] r@[a]).0@ != (#[trigger] r@[b]).0@ by {
                assert(r@[a].0@ == self.keys@[a]@);
                assert(r@[b].0@ == self.keys@[b]@);
            }
            assert forall|k: Seq<char>| #[trigger] self@.contains_key(k) implies exists|j: int| 0 <= j < r@.len() && (#[trigger] r@[j]).0@ == k by {
                let j = choose|j: int| 0 <= j < self.keys@.len() && (#[trigger] self.keys@[j])@ == k;
                assert(r@[j].0@ == k);
            }
        }
        r
    }
}

/// `a^b` as a string.
pub fn join2(a: &String, b: &String) -> (r: String)
    ensures
        r@ == key2(a@, b@),
{
    let mut r = a.clone();
    proof {
        reveal_strlit("^");
    }
    r.append("^");
    r.append(b.as_str());
    r
}

/// `a^b^c` as a string.
pub fn join3(a: &String, b: &String, c: &String) -> (r: String)
    ensures
        r@ == key3(a@, b@, c@),
{
    let mut r = join2(a, b);
    proof {
        reveal_strlit("^");
    }
    r.append("^");
    r.append(c.as_str());
    r
}

/// `key` is missing from `d` or counted fewer than `threshold` times.
pub open spec fn rare(d: Map<Seq<char>, i32>, key: Seq<char>, threshold: i32) -> bool {
    !d.contains_key(key) || d[key] < threshold
}

/// The 3-gram that starts at position `i` of `t` exists and is rare.
pub open spec fn rare_triple_at(t: Seq<Seq<char>>, d: Map<Seq<char>, i32>, threshold: i32, i: int) -> bool {
    0 <= i && i + 2 < t.len() && rare(d, key3(t[i], t[i + 1], t[i + 2]), threshold)
}

/// Position `k` of `t` belongs to a rare 3-gram.
pub open spec fn in_rare_triple(t: Seq<Seq<char>>, d: Map<Seq<char>, i32>, threshold: i32, k: int) -> bool {
    rare_triple_at(t, d, threshold, k - 2) || rare_triple_at(t, d, threshold, k - 1)
        || rare_triple_at(t, d, threshold, k)
}

/// The positions of `t` that belong to a rare 3-gram, ascending.
pub open spec fn rare_triple_positions(t: Seq<Seq<char>>, d: Map<Seq<char>, i32>, threshold: i32) -> Seq<
    usize,
> {
    Seq::new(t.len(), |i: int| i as usize).filter(
        |k: usize| in_rare_triple(t, d, threshold, k as int),
    )
}

/// Keeping some elements of a strictly increasing sequence of numbers below
/// `n` gives a strictly increasing sequence of numbers below `n`.
pub proof fn lemma_filter_increasing(s: Seq<usize>, p: spec_fn(usize) -> bool, n: int)
    requires
        forall|i: int, j: int| 0 <= i < j < s.len() ==> s[i] < s[j],
        forall|i: int| 0 <= i < s.len() ==> s[i] < n,
    ensures
        forall|i: int, j: int| 0 <= i < j < s.filter(p).len() ==> s.filter(p)[i] < s.filter(p)[j],
        forall|i: int| 0 <= i < s.filter(p).len() ==> s.filter(p)[i] < n,
    decreases s.len(),
{
    reveal(Seq::filter);
    if s.len() > 0 {
        let d = s.drop_last();
        lemma_filter_increasing(d, p, s.last() as int);
        let df = d.filter(p);
        let f = s.filter(p);
        if p(s.last()) {
            assert(f == df.push(s.last()));
            assert forall|i: int, j: int| 0 <= i < j < f.len() implies f[i] < f[j] by {
                if j < df.len() {
                    assert(f[i] == df[i] && f[j] == df[j]);
                } else {
                    assert(f[i] == df[i]);
                }
            }
            assert forall|i: int| 0 <= i < f.len() implies f[i] < n by {
                if i < df.len() {
                    assert(f[i] == df[i]);
                }
            }
        } else {
            assert(f == df);
        }
    }
}

/// The positions of `tokens` that belong to a 3-gram that is missing from
/// `tri_dictionary_list` or counted fewer than `tri_threshold` times, in
/// ascending order, each once.
pub fn triple_match(tokens: &[String], tri_dictionary_list: &NgramDictionary, tri_threshold: i32) -> (r:
    Vec<usize>)
    ensures
        r@ == rare_triple_positions(strs(tokens@), tri_dictionary_list@, tri_threshold),
        forall|i: int, j: int| 0 <= i < j < r@.len() ==> r@[i] < r@[j],
        forall|i: int| 0 <= i < r@.len() ==> r@[i] < tokens@.len(),
        tokens@.len() < 3 ==> r@.len() == 0,
        forall|x: usize|
            #[trigger] r@.contains(x) <==> (x < tokens@.len() && exists|s: int|
                x - 2 <= s <= x && 0 <= s && s + 2 < tokens@.len() && (!tri_dictionary_list@.contains_key(
                    strs(tokens@)[s] + seq!['^'] + strs(tokens@)[s + 1] + seq!['^'] + strs(tokens@)[s + 2],
                ) || tri_dictionary_list@[strs(tokens@)[s] + seq!['^'] + strs(tokens@)[s + 1] + seq!['^'] + strs(tokens@)[s + 2]] < tri_threshold)),
{
    let ghost t = strs(tokens@);
    let ghost d = tri_dictionary_list@;
    let n = tokens.len();
    let mut marks: Vec<bool> = Vec::new();
    let mut k: usize = 0;
    while k < n
        invariant
            k <= n,
            marks@.len() == k,
            forall|j: int| 0 <= j < k ==> !marks@[j],
        decreases n - k,
    {
        marks.push(false);
        k = k + 1;
    }
    let mut index: usize = 0;
    while index < n
        invariant
            n == tokens@.len(),
            t == strs(tokens@),
            d == tri_dictionary_list@,
            index <= n,
            marks@.len() == n,
            forall|j: int|
                0 <= j < n ==> #[trigger] marks@[j] == ((j - 2 < index && rare_triple_at(
                    t,
                    d,
                    tri_threshold,
                    j - 2,
                )) || (j - 1 < index && rare_triple_at(t, d, tri_threshold, j - 1)) || (j
                    < index && rare_triple_at(t, d, tri_threshold, j))),
        ensures
            forall|j: int|
                0 <= j < n ==> #[trigger] marks@[j] == in_rare_triple(t, d, tri_threshold, j),
        decreases n - index,
    {
        if n - index <= 2 {
            break;
        }
        let key = join3(&tokens[index], &tokens[index + 1], &tokens[index + 2]);
        let is_rare = match tri_dictionary_list.get(key.as_str()) {
            None => true,
            Some(c) => c < tri_threshold,
        };
        assert(is_rare == rare_triple_at(t, d, tri_threshold, index as int));
        if is_rare {
            marks.set(index, true);
            marks.set(index + 1, true);
            marks.set(index + 2, true);
        }
        index = index + 1;
    }
    let ghost pred = |k: usize| in_rare_triple(t, d, tri_threshold, k as int);
    let mut r: Vec<usize> = Vec::new();
    let mut k: usize = 0;
    while k < n
        invariant
            n == tokens@.len(),
            t == strs(tokens@),
            d == tri_dictionary_list@,
            pred == (|k: usize| in_rare_triple(t, d, tri_threshold, k as int)),
            k <= n,
            marks@.len() == n,
            forall|j: int| 0 <= j < n ==> #[trigger] marks@[j] == in_rare_triple(t, d, tri_threshold, j),
            r@ == Seq::new(k as nat, |i: int| i as usize).filter(pred),
        decreases n - k,
    {
        proof {
            reveal(Seq::filter);
            assert(Seq::new((k + 1) as nat, |i: int| i as usize).drop_last() =~= Seq::new(
                k as nat,
                |i: int| i as usize,
            ));
        }
        if marks[k] {
            r.push(k);
        }
        k = k + 1;
    }
    assert(Seq::new(n as nat, |i: int| i as usize) =~= Seq::new(t.len(), |i: int| i as usize));
    proof {
        lemma_filter_increasing(Seq::new(n as nat, |i: int| i as usize), pred, n as int);
        if n < 3 && r@.len() > 0 {
            Seq::new(n as nat, |i: int| i as usize).lemma_filter_pred(pred, 0);
            assert(pred(r@[0]));
        }
        law_triple_match_positions(t, d, tri_threshold, r@);
    }
    r
}

/// Whether the token at `index` is dynamic by its 2-grams: the first token
/// when `t[0]^t[1]` is missing or counted fewer than `threshold` times; the
/// token at `length - 1` when both `t[index-1]^t[index]` and
/// `t[index]^t[0]` are missing or counted fewer than `threshold` times;
/// any other token when both `t[index]^t[index+1]` and `t[index-1]^t[index]`
/// are.
pub open spec fn double_dynamic(
    t: Seq<Seq<char>>,
    d: Map<Seq<char>, i32>,
    threshold: i32,
    length: int,
    index: int,
) -> bool {
    if index == 0 {
        rare(d, key2(t[0], t[1]), threshold)
    } else if index == length - 1 {
        rare(d, key2(t[index - 1], t[index]), threshold) && rare(d, key2(t[index], t[0]), threshold)
    } else {
        rare(d, key2(t[index], t[index + 1]), threshold) && rare(
            d,
            key2(t[index - 1], t[index]),
            threshold,
        )
    }
}

/// The indices that [`double_match`] can examine without going out of
/// bounds.
pub open spec fn double_match_indices_ok(t_len: int, index_list: Seq<usize>, length: int) -> bool {
    forall|k: int|
        0 <= k < index_list.len() ==> {
            let x = #[trigger] index_list[k] as int;
            &&& x < t_len
            &&& (x == 0 ==> t_len >= 2)
            &&& (x != 0 ==> length >= 1)
            &&& (x != 0 && x != length - 1 ==> x + 1 < t_len)
        }
}

/// The indices of `index_list` whose token is dynamic by its 2-grams (see
/// [`double_dynamic`]), in the order of `index_list`.
pub fn double_match(
    tokens: &[String],
    index_list: &[usize],
    double_dictionary_list: &NgramDictionary,
    double_threshold: i32,
    length: usize,
) -> (r: Vec<usize>)
    requires
        double_match_indices_ok(tokens@.len() as int, index_list@, length as int),
    ensures
        r@ == index_list@.filter(
            |x: usize|
                double_dynamic(
                    strs(tokens@),
                    double_dictionary_list@,
                    double_threshold,
                    length as int,
                    x as int,
                ),
        ),
        forall|x: usize| #[trigger] r@.contains(x) ==> index_list@.contains(x),
        forall|x: usize|
            #[trigger] r@.contains(x) && x == 0 ==> (!double_dictionary_list@.contains_key(strs(tokens@)[0] + seq!['^'] + strs(tokens@)[1]) || double_dictionary_list@[strs(tokens@)[0]
                + seq!['^'] + strs(tokens@)[1]] < double_threshold),
        forall|x: usize|
            #[trigger] r@.contains(x) && x != 0 && x == length - 1 ==> (!double_dictionary_list@.contains_key(
                strs(tokens@)[x - 1] + seq!['^'] + strs(tokens@)[x as int],
            ) || double_dictionary_list@[strs(tokens@)[x - 1] + seq!['^'] + strs(tokens@)[x as int]] < double_threshold) && (!double_dictionary_list@.contains_key(
                strs(tokens@)[x as int] + seq!['^'] + strs(tokens@)[0],
            ) || double_dictionary_list@[strs(tokens@)[x as int] + seq!['^'] + strs(tokens@)[0]] < double_threshold),
        forall|x: usize|
            #[trigger] r@.contains(x) && x != 0 && x != length - 1 ==> (!double_dictionary_list@.contains_key(
                strs(tokens@)[x as int] + seq!['^'] + strs(tokens@)[x + 1],
            ) || double_dictionary_list@[strs(tokens@)[x as int] + seq!['^'] + strs(tokens@)[x + 1]] < double_threshold) && (!double_dictionary_list@.contains_key(
                strs(tokens@)[x - 1] + seq!['^'] + strs(tokens@)[x as int],
            ) || double_dictionary_list@[strs(tokens@)[x - 1] + seq!['^'] + strs(tokens@)[x as int]] < double_threshold),
        forall|x: usize|
            #[trigger] index_list@.contains(x) && (if x == 0 {
                !double_dictionary_list@.contains_key(strs(tokens@)[0] + seq!['^'] + strs(tokens@)[1]) || double_dictionary_list@[strs(tokens@)[0] + seq!['^'] + strs(tokens@)[1]] < double_threshold
            } else if x == length - 1 {
                (!double_dictionary_list@.contains_key(strs(tokens@)[x - 1] + seq!['^'] + strs(tokens@)[x as int]) || double_dictionary_list@[strs(tokens@)[x - 1] + seq!['^'] + strs(tokens@)[x as int]]
                    < double_threshold) && (!double_dictionary_list@.contains_key(strs(tokens@)[x as int] + seq!['^'] + strs(tokens@)[0]) || double_dictionary_list@[strs(tokens@)[x as int]
                    + seq!['^'] + strs(tokens@)[0]] < double_threshold)
            } else {
                (!double_dictionary_list@.contains_key(strs(tokens@)[x as int] + seq!['^'] + strs(tokens@)[x + 1]) || double_dictionary_list@[strs(tokens@)[x as int] + seq!['^'] + strs(tokens@)[x
                    + 1]] < double_threshold) && (!double_dictionary_list@.contains_key(strs(tokens@)[x - 1] + seq!['^'] + strs(tokens@)[x as int]) || double_dictionary_list@[strs(tokens@)[x
                    - 1] + seq!['^'] + strs(tokens@)[x as int]] < double_threshold)
            }) ==> r@.contains(x),
{
    let ghost t = strs(tokens@);
    let ghost d = double_dictionary_list@;
    let ghost pred = |x: usize| double_dynamic(t, d, double_threshold, length as int, x as int);
    let mut dynamic_index: Vec<usize> = Vec::new();
    let mut k: usize = 0;
    while k < index_list.len()
        invariant
            t == strs(tokens@),
            d == double_dictionary_list@,
            pred == (|x: usize| double_dynamic(t, d, double_threshold, length as int, x as int)),
            double_match_indices_ok(tokens@.len() as int, index_list@, length as int),
            k <= index_list@.len(),
            dynamic_index@ == index_list@.take(k as int).filter(pred),
        decreases index_list@.len() - k,
    {
        proof {
            reveal(Seq::filter);
            assert(index_list@.take(k + 1).drop_last() =~= index_list@.take(k as int));
        }
        let index = index_list[k];
        assert(index_list@[k as int] == index);
        let dynamic = if index == 0 {
            let key = join2(&tokens[index], &tokens[index + 1]);
            match double_dictionary_list.get(key.as_str()) {
                None => true,
                Some(c) => c < double_threshold,
            }
        } else if index == length - 1 {
            let key1 = join2(&tokens[index - 1], &tokens[index]);
            let key2 = join2(&tokens[index], &tokens[0]);
            let r1 = match double_dictionary_list.get(key1.as_str()) {
                None => true,
                Some(c) => c < double_threshold,
            };
            let r2 = match double_dictionary_list.get(key2.as_str()) {
                None => true,
                Some(c) => c < double_threshold,
            };
            r1 && r2
        } else {
            let key1 = join2(&tokens[index], &tokens[index + 1]);
            let key2 = join2(&tokens[index - 1], &tokens[index]);
            let r1 = match double_dictionary_list.get(key1.as_str()) {
                None => true,
                Some(c) => c < double_threshold,
            };
            let r2 = match double_dictionary_list.get(key2.as_str()) {
                None => true,
                Some(c) => c < double_threshold,
            };
            r1 && r2
        };
        assert(dynamic == pred(index));
        if dynamic {
            dynamic_index.push(index);
        }
        k = k + 1;
    }
    assert(index_list@.take(index_list@.len() as int) =~= index_list@);
    proof {
        law_double_match_indices(t, index_list@, d, double_threshold, length as int, dynamic_index@);
    }
    dynamic_index
}

/// Every position of [`rare_triple_positions`] can be examined by
/// [`double_match`] with the message length as `length`.
pub proof fn lemma_rare_positions_indices_ok(t: Seq<Seq<char>>, d: Map<Seq<char>, i32>, threshold: i32)
    ensures
        double_match_indices_ok(t.len() as int, rare_triple_positions(t, d, threshold), t.len() as int),
{
    broadcast use vstd::seq_lib::group_filter_ensures;

    let all = Seq::new(t.len(), |i: int| i as usize);
    let pred = |k: usize| in_rare_triple(t, d, threshold, k as int);
    assert forall|k: int| 0 <= k < all.filter(pred).len() implies {
        let x = #[trigger] all.filter(pred)[k] as int;
        &&& x < t.len()
        &&& (x == 0 ==> t.len() >= 2)
        &&& (x != 0 ==> t.len() >= 1)
        &&& (x != 0 && x != t.len() - 1 ==> x + 1 < t.len())
    } by {
        assert(pred(all.filter(pred)[k]));
    }
}

/// Keeping the elements that meet `p` is keeping, among those that meet a
/// weaker `q`, the ones that meet `p`.
pub proof fn lemma_filter_weaker<A>(s: Seq<A>, p: spec_fn(A) -> bool, q: spec_fn(A) -> bool)
    requires
        forall|x: A| #[trigger] p(x) ==> q(x),
    ensures
        s.filter(p) == s.filter(q).filter(p),
    decreases s.len(),
{
    reveal(Seq::filter);
    if s.len() > 0 {
        lemma_filter_weaker(s.drop_last(), p, q);
        let sq = s.drop_last().filter(q);
        if q(s.last()) {
            assert(sq.push(s.last()).drop_last() =~= sq);
        }
    }
}

/// Law: raising the 3-gram threshold never drops a position: the positions
/// found with `low` are those found with `high` that are also found with
/// `low`, in the same order.
pub proof fn law_triple_match_monotone(t: Seq<Seq<char>>, d: Map<Seq<char>, i32>, low: i32, high: i32)
    requires
        low <= high,
    ensures
        rare_triple_positions(t, d, low) == rare_triple_positions(t, d, high).filter(
            |k: usize| in_rare_triple(t, d, low, k as int),
        ),
{
    let p = |k: usize| in_rare_triple(t, d, low, k as int);
    let q = |k: usize| in_rare_triple(t, d, high, k as int);
    lemma_filter_weaker(Seq::new(t.len(), |i: int| i as usize), p, q);
}

/// Law: raising the 2-gram threshold never drops an index from
/// [`double_match`]: the indices kept with `low` are those kept with `high`
/// that are also kept with `low`, in the same order.
pub proof fn law_double_match_monotone(
    t: Seq<Seq<char>>,
    index_list: Seq<usize>,
    d: Map<Seq<char>, i32>,
    low: i32,
    high: i32,
    length: int,
)
    requires
        low <= high,
    ensures
        index_list.filter(|x: usize| double_dynamic(t, d, low, length, x as int)) == index_list.filter(
            |x: usize| double_dynamic(t, d, high, length, x as int),
        ).filter(|x: usize| double_dynamic(t, d, low, length, x as int)),
{
    let p = |x: usize| double_dynamic(t, d, low, length, x as int);
    let q = |x: usize| double_dynamic(t, d, high, length, x as int);
    lemma_filter_weaker(index_list, p, q);
}

/// An element is kept by a filter exactly when it is in the sequence and
/// meets the predicate.
pub proof fn lemma_filter_member<A>(s: Seq<A>, p: spec_fn(A) -> bool, x: A)
    ensures
        s.filter(p).contains(x) <==> s.contains(x) && p(x),
{
    broadcast use vstd::seq_lib::group_filter_ensures;

    if s.filter(p).contains(x) {
        s.lemma_filter_contains_rev(p, x);
        let k = choose|k: int| 0 <= k < s.filter(p).len() && s.filter(p)[k] == x;
        s.lemma_filter_pred(p, k);
    }
    if s.contains(x) && p(x) {
        let i = choose|i: int| 0 <= i < s.len() && s[i] == x;
        s.lemma_filter_contains(p, i);
    }
}

/// Law: the positions that [`triple_match`] gives (`r`, as its contract
/// states them) are exactly the positions `x` of the message such that one
/// of the 3-grams `t[s]^t[s+1]^t[s+2]` that contain it (`s` being `x - 2`,
/// `x - 1` or `x`) is missing from `d` or counted fewer than `threshold`
/// times.
pub proof fn law_triple_match_positions(t: Seq<Seq<char>>, d: Map<Seq<char>, i32>, threshold: i32, r: Seq<usize>)
    requires
        r == rare_triple_positions(t, d, threshold),
    ensures
        forall|x: usize|
            #[trigger] r.contains(x) <==> (x < t.len() && exists|s: int|
                x - 2 <= s <= x && 0 <= s && s + 2 < t.len() && (!d.contains_key(
                    t[s] + seq!['^'] + t[s + 1] + seq!['^'] + t[s + 2],
                ) || d[t[s] + seq!['^'] + t[s + 1] + seq!['^'] + t[s + 2]] < threshold)),
{
    let all = Seq::new(t.len(), |i: int| i as usize);
    let pred = |k: usize| in_rare_triple(t, d, threshold, k as int);
    assert forall|x: usize|
        #[trigger] r.contains(x) <==> (x < t.len() && exists|s: int|
            x - 2 <= s <= x && 0 <= s && s + 2 < t.len() && (!d.contains_key(
                t[s] + seq!['^'] + t[s + 1] + seq!['^'] + t[s + 2],
            ) || d[t[s] + seq!['^'] + t[s + 1] + seq!['^'] + t[s + 2]] < threshold)) by {
        lemma_filter_member(all, pred, x);
        if x < t.len() {
            assert(all[x as int] == x);
        }
        if all.contains(x) {
            let i = choose|i: int| 0 <= i < all.len() && all[i] == x;
        }
        if pred(x) {
            if rare_triple_at(t, d, threshold, x - 2) {
                assert(x - 2 <= x - 2 <= x);
            } else if rare_triple_at(t, d, threshold, x - 1) {
                assert(x - 2 <= x - 1 <= x);
            }
        }
        if x < t.len() && exists|s: int|
            x - 2 <= s <= x && 0 <= s && s + 2 < t.len() && (!d.contains_key(
                t[s] + seq!['^'] + t[s + 1] + seq!['^'] + t[s + 2],
            ) || d[t[s] + seq!['^'] + t[s + 1] + seq!['^'] + t[s + 2]] < threshold) {
            let s = choose|s: int|
                x - 2 <= s <= x && 0 <= s && s + 2 < t.len() && (!d.contains_key(
                    t[s] + seq!['^'] + t[s + 1] + seq!['^'] + t[s + 2],
                ) || d[t[s] + seq!['^'] + t[s + 1] + seq!['^'] + t[s + 2]] < threshold);
            assert(rare_triple_at(t, d, threshold, s));
            assert(all.contains(x));
        }
    }
}

/// Law: the indices that [`double_match`] keeps (`r`, as its contract
/// states them) are indices of `index_list`, kept in its order, and an
/// index `x` is kept exactly when its 2-grams are all rare (missing from `d`
/// or counted fewer than `threshold` times), namely:
/// - the first token (`x == 0`): `t[0]^t[1]`;
/// - the last one (`x == length - 1 > 0`): both `t[x-1]^t[x]` and
///   `t[x]^t[0]`;
/// - any other: both `t[x]^t[x+1]` and `t[x-1]^t[x]`.
/// So a position with one 2-gram counted at least `threshold` times is never
/// kept.
pub proof fn law_double_match_indices(
    t: Seq<Seq<char>>,
    index_list: Seq<usize>,
    d: Map<Seq<char>, i32>,
    threshold: i32,
    length: int,
    r: Seq<usize>,
)
    requires
        r == index_list.filter(|x: usize| double_dynamic(t, d, threshold, length, x as int)),
    ensures
        forall|x: usize| #[trigger] r.contains(x) ==> index_list.contains(x),
        forall|x: usize|
            #[trigger] r.contains(x) && x == 0 ==> (!d.contains_key(t[0] + seq!['^'] + t[1]) || d[t[0]
                + seq!['^'] + t[1]] < threshold),
        forall|x: usize|
            #[trigger] r.contains(x) && x != 0 && x == length - 1 ==> (!d.contains_key(
                t[x - 1] + seq!['^'] + t[x as int],
            ) || d[t[x - 1] + seq!['^'] + t[x as int]] < threshold) && (!d.contains_key(
                t[x as int] + seq!['^'] + t[0],
            ) || d[t[x as int] + seq!['^'] + t[0]] < threshold),
        forall|x: usize|
            #[trigger] r.contains(x) && x != 0 && x != length - 1 ==> (!d.contains_key(
                t[x as int] + seq!['^'] + t[x + 1],
            ) || d[t[x as int] + seq!['^'] + t[x + 1]] < threshold) && (!d.contains_key(
                t[x - 1] + seq!['^'] + t[x as int],
            ) || d[t[x - 1] + seq!['^'] + t[x as int]] < threshold),
        forall|x: usize|
            #[trigger] index_list.contains(x) && (if x == 0 {
                !d.contains_key(t[0] + seq!['^'] + t[1]) || d[t[0] + seq!['^'] + t[1]] < threshold
            } else if x == length - 1 {
                (!d.contains_key(t[x - 1] + seq!['^'] + t[x as int]) || d[t[x - 1] + seq!['^'] + t[x as int]]
                    < threshold) && (!d.contains_key(t[x as int] + seq!['^'] + t[0]) || d[t[x as int]
                    + seq!['^'] + t[0]] < threshold)
            } else {
                (!d.contains_key(t[x as int] + seq!['^'] + t[x + 1]) || d[t[x as int] + seq!['^'] + t[x
                    + 1]] < threshold) && (!d.contains_key(t[x - 1] + seq!['^'] + t[x as int]) || d[t[x
                    - 1] + seq!['^'] + t[x as int]] < threshold)
            }) ==> r.contains(x),
{
    let pred = |x: usize| double_dynamic(t, d, threshold, length, x as int);
    assert forall|x: usize| #[trigger] r.contains(x) ==> index_list.contains(x) && pred(x) by {
        lemma_filter_member(index_list, pred, x);
    }
    assert forall|x: usize| #[trigger] index_list.contains(x) && pred(x) ==> r.contains(x) by {
        lemma_filter_member(index_list, pred, x);
    }
}

/// Law: the positions of a message that are shown as variables (see
/// [`dynamic_positions`]) are exactly those that belong to a 3-gram missing
/// from `td` or counted fewer than `tri_threshold` times, and whose 2-grams
/// (as [`law_double_match_indices`] lists them) are missing from `dd` or
/// counted fewer than `double_threshold` times: the 3-gram counts are
/// compared with `tri_threshold` only, the 2-gram counts with
/// `double_threshold` only.
pub proof fn law_dynamic_positions(
    t: Seq<Seq<char>>,
    dd: Map<Seq<char>, i32>,
    td: Map<Seq<char>, i32>,
    double_threshold: i32,
    tri_threshold: i32,
)
    ensures
        forall|x: usize|
            #[trigger] dynamic_positions(t, dd, td, double_threshold, tri_threshold).contains(x) <==> {
                &&& x < t.len()
                &&& exists|s: int|
                    x - 2 <= s <= x && 0 <= s && s + 2 < t.len() && (!td.contains_key(
                        t[s] + seq!['^'] + t[s + 1] + seq!['^'] + t[s + 2],
                    ) || td[t[s] + seq!['^'] + t[s + 1] + seq!['^'] + t[s + 2]] < tri_threshold)
                &&& if x == 0 {
                    !dd.contains_key(t[0] + seq!['^'] + t[1]) || dd[t[0] + seq!['^'] + t[1]] < double_threshold
                } else if x == t.len() - 1 {
                    (!dd.contains_key(t[x - 1] + seq!['^'] + t[x as int]) || dd[t[x - 1] + seq!['^']
                        + t[x as int]] < double_threshold) && (!dd.contains_key(t[x as int] + seq!['^'] + t[0])
                        || dd[t[x as int] + seq!['^'] + t[0]] < double_threshold)
                } else {
                    (!dd.contains_key(t[x as int] + seq!['^'] + t[x + 1]) || dd[t[x as int] + seq!['^'] + t[x
                        + 1]] < double_threshold) && (!dd.contains_key(t[x - 1] + seq!['^'] + t[x as int])
                        || dd[t[x - 1] + seq!['^'] + t[x as int]] < double_threshold)
                }
            },
{
    let rp = rare_triple_positions(t, td, tri_threshold);
    let dy = dynamic_positions(t, dd, td, double_threshold, tri_threshold);
    law_triple_match_positions(t, td, tri_threshold, rp);
    law_double_match_indices(t, rp, dd, double_threshold, t.len() as int, dy);
    let pred = |x: usize| double_dynamic(t, dd, double_threshold, t.len() as int, x as int);
    assert forall|x: usize| #[trigger] dy.contains(x) <==> rp.contains(x) && pred(x) by {
        lemma_filter_member(rp, pred, x);
    }
}

/// Law: a message whose every 3-gram is counted at least `tri_threshold`
/// times has no variable position: its template is its tokens, each followed
/// by one space, trimmed and without commas, whatever the 2-gram counts.
pub proof fn law_frequent_message_is_its_own_template(
    t: Seq<Seq<char>>,
    dd: Map<Seq<char>, i32>,
    td: Map<Seq<char>, i32>,
    double_threshold: i32,
    tri_threshold: i32,
)
    requires
        forall|s: int|
            0 <= s && s + 2 < t.len() ==> td.contains_key(t[s] + seq!['^'] + t[s + 1] + seq!['^'] + t[s + 2])
                && td[t[s] + seq!['^'] + t[s + 1] + seq!['^'] + t[s + 2]] >= tri_threshold,
    ensures
        dynamic_positions(t, dd, td, double_threshold, tri_threshold) =~= Seq::<usize>::empty(),
        event_template(t, dd, td, double_threshold, tri_threshold) == without_commas(
            trim(spaced_tokens(t)),
        ),
{
    law_dynamic_positions(t, dd, td, double_threshold, tri_threshold);
    let dy = dynamic_positions(t, dd, td, double_threshold, tri_threshold);
    if dy.len() > 0 {
        assert(dy.contains(dy[0]));
    }
    lemma_event_text_without_dynamic(t, dy);
}

/// Law: a template holds no comma.
pub proof fn law_template_has_no_commas(
    t: Seq<Seq<char>>,
    dd: Map<Seq<char>, i32>,
    td: Map<Seq<char>, i32>,
    double_threshold: i32,
    tri_threshold: i32,
)
    ensures
        forall|j: int|
            0 <= j < event_template(t, dd, td, double_threshold, tri_threshold).len() ==> #[trigger] event_template(
                t,
                dd,
                td,
                double_threshold,
                tri_threshold,
            )[j] != ',',
{
    broadcast use vstd::seq_lib::group_filter_ensures;

    let x = trim(event_text(t, dynamic_positions(t, dd, td, double_threshold, tri_threshold)));
    let p = |c: char| c != ',';
    assert forall|j: int| 0 <= j < x.filter(p).len() implies #[trigger] x.filter(p)[j] != ',' by {
        x.lemma_filter_pred(p, j);
    }
}

/// The tokens of `t`, each followed by one space.
pub open spec fn spaced_tokens(t: Seq<Seq<char>>) -> Seq<char>
    decreases t.len(),
{
    if t.len() == 0 {
        seq![]
    } else {
        t[0] + seq![' '] + spaced_tokens(t.drop_first())
    }
}

/// With no dynamic position, the event text is the tokens, each followed by
/// one space.
proof fn lemma_event_text_without_dynamic(t: Seq<Seq<char>>, dynamic: Seq<usize>)
    requires
        dynamic.len() == 0,
    ensures
        event_text(t, dynamic) == spaced_tokens(t),
    decreases t.len(),
{
    if t.len() > 0 {
        lemma_event_text_without_dynamic(t.drop_last(), dynamic);
        lemma_spaced_push(t.drop_last(), t.last());
        assert(t.drop_last().push(t.last()) =~= t);
    }
}

/// Spacing one more token appends it and a space.
proof fn lemma_spaced_push(t: Seq<Seq<char>>, w: Seq<char>)
    ensures
        spaced_tokens(t.push(w)) == spaced_tokens(t) + w + seq![' '],
    decreases t.len(),
{
    if t.len() == 0 {
        assert(t.push(w).drop_first() =~= Seq::<Seq<char>>::empty());
        assert(spaced_tokens(t.push(w).drop_first()) =~= Seq::<char>::empty());
        assert(t.push(w)[0] == w);
        assert(spaced_tokens(t.push(w)) =~= w + seq![' ']);
        assert(spaced_tokens(t) + w + seq![' '] =~= w + seq![' ']);
    } else {
        lemma_spaced_push(t.drop_first(), w);
        assert(t.push(w).drop_first() =~= t.drop_first().push(w));
        assert(t.push(w)[0] == t[0]);
        assert(spaced_tokens(t.push(w)) =~= spaced_tokens(t) + w + seq![' ']);
    }
}

/// The message text with each dynamic position shown as `<*>`: every token
/// (or `<*>`) followed by one space.
pub open spec fn event_text(t: Seq<Seq<char>>, dynamic: Seq<usize>) -> Seq<char>
    decreases t.len(),
{
    if t.len() == 0 {
        seq![]
    } else {
        event_text(t.drop_last(), dynamic) + if dynamic.contains((t.len() - 1) as usize) {
            seq!['<', '*', '>', ' ']
        } else {
            t.last() + seq![' ']
        }
    }
}

/// `s` without its commas.
pub open spec fn without_commas(s: Seq<char>) -> Seq<char> {
    s.filter(|c: char| c != ',')
}

/// The dynamic positions of message `t`: those of its rare 3-grams whose
/// 2-grams are rare too.
pub open spec fn dynamic_positions(
    t: Seq<Seq<char>>,
    dd: Map<Seq<char>, i32>,
    td: Map<Seq<char>, i32>,
    double_threshold: i32,
    tri_threshold: i32,
) -> Seq<usize> {
    rare_triple_positions(t, td, tri_threshold).filter(
        |x: usize| double_dynamic(t, dd, double_threshold, t.len() as int, x as int),
    )
}

/// The template of message `t`: its event text, trimmed, without commas.
pub open spec fn event_template(
    t: Seq<Seq<char>>,
    dd: Map<Seq<char>, i32>,
    td: Map<Seq<char>, i32>,
    double_threshold: i32,
    tri_threshold: i32,
) -> Seq<char> {
    without_commas(trim(event_text(t, dynamic_positions(t, dd, td, double_threshold, tri_threshold))))
}

/// The elements of `s` in order of first appearance, each once.
pub open spec fn first_occurrences<A>(s: Seq<A>) -> Seq<A>
    decreases s.len(),
{
    if s.len() == 0 {
        s
    } else {
        let d = first_occurrences(s.drop_last());
        if d.contains(s.last()) {
            d
        } else {
            d.push(s.last())
        }
    }
}

/// Law: the templates that [`token_match`] lists are the distinct
/// (template id, template) pairs of its structured rows: no pair is listed
/// twice, and a pair is listed exactly when some row has it.
pub proof fn law_templates_are_distinct_rows<A>(rows: Seq<A>)
    ensures
        first_occurrences(rows).no_duplicates(),
        forall|x: A| #[trigger] first_occurrences(rows).contains(x) <==> rows.contains(x),
    decreases rows.len(),
{
    if rows.len() > 0 {
        let init = rows.drop_last();
        let last = rows.last();
        law_templates_are_distinct_rows(init);
        let d = first_occurrences(init);
        assert forall|x: A| rows.contains(x) <==> (init.contains(x) || x == last) by {
            if rows.contains(x) {
                let j = choose|j: int| 0 <= j < rows.len() && rows[j] == x;
                if j < rows.len() - 1 {
                    assert(init[j] == x);
                }
            }
            if init.contains(x) {
                let j = choose|j: int| 0 <= j < init.len() && init[j] == x;
                assert(rows[j] == x);
            }
            if x == last {
                assert(rows[rows.len() - 1] == x);
            }
        }
        if !d.contains(last) {
            let e = d.push(last);
            assert forall|x: A| e.contains(x) <==> (d.contains(x) || x == last) by {
                if e.contains(x) {
                    let j = choose|j: int| 0 <= j < e.len() && e[j] == x;
                    if j < d.len() {
                        assert(d[j] == x);
                    }
                }
                if d.contains(x) {
                    let j = choose|j: int| 0 <= j < d.len() && d[j] == x;
                    assert(e[j] == x);
                }
                if x == last {
                    assert(e[d.len() as int] == x);
                }
            }
            assert forall|i: int, j: int| 0 <= i < e.len() && 0 <= j < e.len() && i != j implies e[i] != e[j] by {
                if i < d.len() && j < d.len() {
                } else if i < d.len() {
                    assert(d.contains(e[i]));
                } else if j < d.len() {
                    assert(d.contains(e[j]));
                }
            }
        }
    }
}

/// The result of matching a log: the distinct (template id, template)
/// pairs, and for each message its line number (from 1), its text, its
/// template id and its template.
pub struct TemplateMatch {
    pub templates: Vec<(String, String)>,
    pub structured: Vec<(usize, String, String, String)>,
}

/// Whether `x` occurs in `v`.
fn contains_index(v: &Vec<usize>, x: usize) -> (r: bool)
    ensures
        r == v@.contains(x),
{
    let mut k: usize = 0;
    while k < v.len()
        invariant
            k <= v@.len(),
            forall|j: int| 0 <= j < k ==> v@[j] != x,
        decreases v@.len() - k,
    {
        if v[k] == x {
            return true;
        }
        k = k + 1;
    }
    false
}

/// `s` without its commas.
fn remove_commas(s: &str) -> (r: String)
    ensures
        r@ == without_commas(s@),
{
    let cs = chars_of(s);
    let ghost pred = |c: char| c != ',';
    let mut out: Vec<char> = Vec::new();
    let mut k: usize = 0;
    while k < cs.len()
        invariant
            cs@ == s@,
            pred == (|c: char| c != ','),
            k <= cs@.len(),
            out@ == cs@.take(k as int).filter(pred),
        decreases cs@.len() - k,
    {
        proof {
            reveal(Seq::filter);
            assert(cs@.take(k + 1).drop_last() =~= cs@.take(k as int));
        }
        if cs[k] != ',' {
            out.push(cs[k]);
        }
        k = k + 1;
    }
    assert(cs@.take(cs@.len() as int) =~= cs@);
    string_from_chars(out.as_slice())
}

/// The template of one message (see [`event_template`]).
fn message_template(
    tokens: &Vec<String>,
    double_dictionary_list: &NgramDictionary,
    tri_dictionary_list: &NgramDictionary,
    double_threshold: i32,
    tri_threshold: i32,
) -> (r: String)
    ensures
        r@ == event_template(
            tokens.deep_view(),
            double_dictionary_list@,
            tri_dictionary_list@,
            double_threshold,
            tri_threshold,
        ),
{
    let ghost t = tokens.deep_view();
    assert(strs(tokens@) =~= t);
    let index_list = triple_match(tokens.as_slice(), tri_dictionary_list, tri_threshold);
    proof {
        lemma_rare_positions_indices_ok(t, tri_dictionary_list@, tri_threshold);
    }
    let dynamic_index = double_match(
        tokens.as_slice(),
        index_list.as_slice(),
        double_dictionary_list,
        double_threshold,
        tokens.len(),
    );
    let ghost dynamic = dynamic_index@;
    assert(dynamic == dynamic_positions(
        t,
        double_dictionary_list@,
        tri_dictionary_list@,
        double_threshold,
        tri_threshold,
    ));
    let mut log_event = String::new();
    proof {
        reveal_strlit("<*> ");
        reveal_strlit(" ");
    }
    let mut i: usize = 0;
    while i < tokens.len()
        invariant
            t == tokens.deep_view(),
            dynamic == dynamic_index@,
            i <= tokens@.len(),
            log_event@ == event_text(t.take(i as int), dynamic),
        decreases tokens@.len() - i,
    {
        proof {
            reveal_strlit("<*> ");
            reveal_strlit(" ");
        }
        assert(t.take(i + 1).drop_last() =~= t.take(i as int));
        assert(t.take(i + 1).last() == t[i as int]);
        assert(t[i as int] == tokens@[i as int]@);
        if contains_index(&dynamic_index, i) {
            log_event.append("<*> ");
        } else {
            log_event.append(tokens[i].as_str());
            log_event.append(" ");
        }
        i = i + 1;
    }
    assert(t.take(tokens@.len() as int) =~= t);
    let trimmed = trim_str(log_event.as_str());
    remove_commas(trimmed.as_str())
}

/// Matches every message against the dictionaries: the template of each
/// message (see [`event_template`]), its id (see
/// [`crate::digest::template_id_of`]), the rows of the structured log and
/// the distinct templates in order of first appearance.
pub fn token_match(
    all_tokens_list: &Vec<Vec<String>>,
    double_dictionary_list: &NgramDictionary,
    tri_dictionary_list: &NgramDictionary,
    double_threshold: i32,
    tri_threshold: i32,
    all_message_list: &Vec<String>,
) -> (r: TemplateMatch)
    requires
        all_tokens_list@.len() == all_message_list@.len(),
    ensures
        r.structured@.len() == all_tokens_list@.len(),
        forall|i: int|
            0 <= i < all_tokens_list@.len() ==> {
                let tpl = event_template(
                    (#[trigger] all_tokens_list@[i]).deep_view(),
                    double_dictionary_list@,
                    tri_dictionary_list@,
                    double_threshold,
                    tri_threshold,
                );
                &&& r.structured@[i].0 == i + 1
                &&& r.structured@[i].1@ == all_message_list@[i]@
                &&& r.structured@[i].2@ == template_id_of(tpl)
                &&& r.structured@[i].3@ == tpl
            },
        forall|i: int|
            0 <= i < all_tokens_list@.len() && (forall|s: int|
                0 <= s && s + 2 < all_tokens_list@[i].deep_view().len() ==> {
                    &&& tri_dictionary_list@.contains_key(
                        #[trigger] all_tokens_list@[i].deep_view()[s] + seq!['^'] + all_tokens_list@[i].deep_view()[s + 1] + seq!['^'] + all_tokens_list@[i].deep_view()[s + 2],
                    )
                    &&& tri_dictionary_list@[all_tokens_list@[i].deep_view()[s] + seq!['^'] + all_tokens_list@[i].deep_view()[s + 1] + seq!['^'] + all_tokens_list@[i].deep_view()[s + 2]]
                        >= tri_threshold
                }) ==> (#[trigger] r.structured@[i]).3@ == without_commas(trim(spaced_tokens(all_tokens_list@[i].deep_view()))),
        forall|i: int, j: int|
            0 <= i < all_tokens_list@.len() && 0 <= j < r.structured@[i].3@.len() ==> #[trigger] r.structured@[i].3@[j]
                != ',',
        r.templates@.map_values(|p: (String, String)| (p.0@, p.1@)) == first_occurrences(
            Seq::new(
                all_tokens_list@.len(),
                |i: int|
                    {
                        let tpl = event_template(
                            all_tokens_list@[i].deep_view(),
                            double_dictionary_list@,
                            tri_dictionary_list@,
                            double_threshold,
                            tri_threshold,
                        );
                        (template_id_of(tpl), tpl)
                    },
            ),
        ),
{
    let n = all_tokens_list.len();
    let ghost rows = Seq::new(
        n as nat,
        |i: int|
            {
                let tpl = event_template(
                    all_tokens_list@[i].deep_view(),
                    double_dictionary_list@,
                    tri_dictionary_list@,
                    double_threshold,
                    tri_threshold,
                );
                (template_id_of(tpl), tpl)
            },
    );
    let mut templates: Vec<(String, String)> = Vec::new();
    let mut structured: Vec<(usize, String, String, String)> = Vec::new();
    let mut index: usize = 0;
    while index < n
        invariant
            n == all_tokens_list@.len(),
            n == all_message_list@.len(),
            rows.len() == n,
            forall|i: int|
                0 <= i < n ==> #[trigger] rows[i] == {
                    let tpl = event_template(
                        all_tokens_list@[i].deep_view(),
                        double_dictionary_list@,
                        tri_dictionary_list@,
                        double_threshold,
                        tri_threshold,
                    );
                    (template_id_of(tpl), tpl)
                },
            index <= n,
            structured@.len() == index,
            forall|i: int|
                0 <= i < index ==> {
                    &&& (#[trigger] structured@[i]).0 == i + 1
                    &&& structured@[i].1@ == all_message_list@[i]@
                    &&& structured@[i].2@ == rows[i].0
                    &&& structured@[i].3@ == rows[i].1
                },
            templates@.map_values(|p: (String, String)| (p.0@, p.1@)) == first_occurrences(
                rows.take(index as int),
            ),
        decreases n - index,
    {
        let tokens = &all_tokens_list[index];
        let message = &all_message_list[index];
        let log_event = message_template(
            tokens,
            double_dictionary_list,
            tri_dictionary_list,
            double_threshold,
            tri_threshold,
        );
        let id = template_id(log_event.as_str());
        assert((id@, log_event@) == rows[index as int]);
        let ghost tv = templates@.map_values(|p: (String, String)| (p.0@, p.1@));
        let mut seen = false;
        let mut k: usize = 0;
        while k < templates.len()
            invariant
                tv == templates@.map_values(|p: (String, String)| (p.0@, p.1@)),
                k <= templates@.len(),
                seen == tv.take(k as int).contains((id@, log_event@)),
            decreases templates@.len() - k,
        {
            assert(tv.take(k + 1) =~= tv.take(k as int).push(tv[k as int]));
            if templates[k].0 == id && templates[k].1 == log_event {
                seen = true;
            }
            assert(seen == tv.take(k + 1).contains((id@, log_event@))) by {
                if tv[k as int] == (id@, log_event@) {
                    assert(tv.take(k + 1)[k as int] == tv[k as int]);
                }
                if tv.take(k + 1).contains((id@, log_event@)) {
                    let j = choose|j: int|
                        0 <= j < tv.take(k + 1).len() && #[trigger] tv.take(k + 1)[j] == (id@, log_event@);
                    if j < k {
                        assert(tv.take(k as int)[j] == (id@, log_event@));
                    }
                }
                if tv.take(k as int).contains((id@, log_event@)) {
                    let j = choose|j: int|
                        0 <= j < tv.take(k as int).len() && #[trigger] tv.take(k as int)[j] == (id@, log_event@);
                    assert(tv.take(k + 1)[j] == (id@, log_event@));
                }
            }
            k = k + 1;
        }
        assert(tv.take(tv.len() as int) =~= tv);
        assert(rows.take(index + 1).drop_last() =~= rows.take(index as int));
        assert(rows.take(index + 1).last() == rows[index as int]);
        if !seen {
            let ghost before = templates@;
            templates.push((id.clone(), log_event.clone()));
            assert(templates@.map_values(|p: (String, String)| (p.0@, p.1@)) =~= tv.push(
                (id@, log_event@),
            ));
        }
        structured.push((index + 1, message.clone(), id, log_event));
        index = index + 1;
    }
    assert(rows.take(n as int) =~= rows);
    proof {
        assert forall|i: int|
            0 <= i < all_tokens_list@.len() && (forall|s: int|
                0 <= s && s + 2 < all_tokens_list@[i].deep_view().len() ==> {
                    &&& tri_dictionary_list@.contains_key(
                        #[trigger] all_tokens_list@[i].deep_view()[s] + seq!['^'] + all_tokens_list@[i].deep_view()[s + 1] + seq!['^'] + all_tokens_list@[i].deep_view()[s + 2],
                    )
                    &&& tri_dictionary_list@[all_tokens_list@[i].deep_view()[s] + seq!['^'] + all_tokens_list@[i].deep_view()[s + 1] + seq!['^'] + all_tokens_list@[i].deep_view()[s + 2]]
                        >= tri_threshold
                }) implies (#[trigger] structured@[i]).3@ == without_commas(trim(spaced_tokens(all_tokens_list@[i].deep_view()))) by {
            law_frequent_message_is_its_own_template(
                all_tokens_list@[i].deep_view(),
                double_dictionary_list@,
                tri_dictionary_list@,
                double_threshold,
                tri_threshold,
            );
        }
        assert forall|i: int, j: int|
            0 <= i < all_tokens_list@.len() && 0 <= j < structured@[i].3@.len() implies #[trigger] structured@[i].3@[j]
                != ',' by {
            law_template_has_no_commas(
                all_tokens_list@[i].deep_view(),
                double_dictionary_list@,
                tri_dictionary_list@,
                double_threshold,
                tri_threshold,
            );
        }
    }
    TemplateMatch { templates, structured }
}

} // verus!
