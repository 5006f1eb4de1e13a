//! Process requests and the small collections they carry.

use crate::digest::{Digest, DigestView};
use crate::text;
use vstd::prelude::*;

verus! {

/// The platform a process is meant to run on.
#[derive(Clone, Copy, Debug, PartialEq, Eq, Hash, Structural)]
pub enum Platform {
    Darwin,
    Linux,
    Unspecified,
}

/// A span of time: whole seconds and the nanoseconds beyond them.
#[derive(Clone, Copy, Debug, PartialEq, Eq, Hash, Structural)]
pub struct Timeout {
    pub secs: u64,
    pub nanos: u32,
}

/// The strings stand in ascending order, none twice.
pub open spec fn sorted_texts(s: Seq<Seq<char>>) -> bool {
    forall|i: int, j: int| 0 <= i < j < s.len() ==> text::text_less(#[trigger] s[i], #[trigger] s[j])
}

/// The first place from `from` on whose string does not come before `t`,
/// or the length of `s` if every string does: the place where `t` stands
/// or would have to stand.
pub open spec fn text_rank(s: Seq<Seq<char>>, t: Seq<char>, from: int) -> int
    decreases s.len() - from,
{
    if from < 0 || from >= s.len() {
        s.len() as int
    } else if !text::text_less(s[from], t) {
        from
    } else {
        text_rank(s, t, from + 1)
    }
}

/// `s` with `t` in it: as it is if `t` is there, and with `t` put in its
/// place if not.
pub open spec fn with_text(s: Seq<Seq<char>>, t: Seq<char>) -> Seq<Seq<char>> {
    let r = text_rank(s, t, 0);
    if r < s.len() && s[r] == t {
        s
    } else {
        s.insert(r, t)
    }
}

/// Where the search for the place of a string ends.
pub proof fn lemma_text_rank(s: Seq<Seq<char>>, t: Seq<char>, from: int)
    requires
        0 <= from <= s.len(),
    ensures
        from <= text_rank(s, t, from) <= s.len(),
        forall|i: int| from <= i < text_rank(s, t, from) ==> text::text_less(#[trigger] s[i], t),
        text_rank(s, t, from) < s.len() ==> !text::text_less(s[text_rank(s, t, from)], t),
    decreases s.len() - from,
{
    if from < s.len() && text::text_less(s[from], t) {
        lemma_text_rank(s, t, from + 1);
    }
}

/// In a sorted list a string is found at its place or nowhere, nothing
/// stands twice, and putting a new string in its place keeps the list
/// sorted.
pub proof fn lemma_sorted_texts(s: Seq<Seq<char>>, t: Seq<char>)
    requires
        sorted_texts(s),
    ensures
        s.no_duplicates(),
        s.contains(t) <==> (text_rank(s, t, 0) < s.len() && s[text_rank(s, t, 0)] == t),
        sorted_texts(with_text(s, t)),
        with_text(s, t).contains(t),
        forall|x: Seq<char>| with_text(s, t).contains(x) <==> (x == t || s.contains(x)),
{
    let r = text_rank(s, t, 0);
    lemma_text_rank(s, t, 0);
    assert forall|i: int, j: int| 0 <= i < s.len() && 0 <= j < s.len() && i != j implies s[i]
        != s[j] by {
        text::lemma_text_order(s[i], s[j], s[i]);
        if i < j {
            assert(text::text_less(s[i], s[j]));
        } else {
            assert(text::text_less(s[j], s[i]));
        }
    }
    if s.contains(t) {
        let k = choose|k: int| 0 <= k < s.len() && s[k] == t;
        text::lemma_text_order(t, t, t);
        if k < r {
            assert(text::text_less(s[k], t));
        } else if k > r {
            assert(text::text_less(s[r], s[k]));
        }
    }
    let w = with_text(s, t);
    if !(r < s.len() && s[r] == t) {
        assert(w[r] == t);
        assert forall|i: int, j: int| 0 <= i < j < w.len() implies text::text_less(
            #[trigger] w[i],
            #[trigger] w[j],
        ) by {
            if j < r {
                assert(w[i] == s[i] && w[j] == s[j]);
            } else if j == r {
                assert(w[i] == s[i]);
                assert(text::text_less(s[i], t));
            } else {
                assert(w[j] == s[j - 1]);
                if i < r {
                    assert(w[i] == s[i]);
                    if i < j - 1 {
                        assert(text::text_less(s[i], s[j - 1]));
                    }
                } else {
                    text::lemma_text_order(t, s[r], s[j - 1]);
                    if r < j - 1 {
                        assert(text::text_less(s[r], s[j - 1]));
                    }
                    if i > r {
                        assert(w[i] == s[i - 1]);
                        assert(text::text_less(s[i - 1], s[j - 1]));
                    }
                }
            }
        }
        assert forall|x: Seq<char>| w.contains(x) <==> (x == t || s.contains(x)) by {
            if w.contains(x) {
                let k = choose|k: int| 0 <= k < w.len() && w[k] == x;
                if k < r {
                    assert(s[k] == x);
                } else if k > r {
                    assert(s[k - 1] == x);
                }
            }
            if s.contains(x) {
                let k = choose|k: int| 0 <= k < s.len() && s[k] == x;
                if k < r {
                    assert(w[k] == x);
                } else {
                    assert(w[k + 1] == x);
                }
            }
        }
    } else {
        assert(w[r] == t);
    }
}

/// A sorted list is fixed by what it holds: two sorted lists that hold the
/// same strings are the same list.
pub proof fn lemma_sorted_texts_are_canonical(a: Seq<Seq<char>>, b: Seq<Seq<char>>)
    requires
        sorted_texts(a),
        sorted_texts(b),
        forall|x: Seq<char>| a.contains(x) <==> b.contains(x),
    ensures
        a == b,
    decreases a.len(),
{
    if a.len() == 0 {
        if b.len() > 0 {
            assert(b.contains(b[0]));
        }
        assert(a =~= b);
    } else {
        assert(a.contains(a[0]));
        assert(b.len() > 0);
        let la = a.last();
        let lb = b.last();
        assert(a.contains(la) && b.contains(lb));
        let j = choose|j: int| 0 <= j < b.len() && b[j] == la;
        let i = choose|i: int| 0 <= i < a.len() && a[i] == lb;
        text::lemma_text_order(la, lb, la);
        if i < a.len() - 1 {
            assert(text::text_less(a[i], a[a.len() - 1]));
        }
        if j < b.len() - 1 {
            assert(text::text_less(b[j], b[b.len() - 1]));
        }
        assert(la == lb);
        let a1 = a.drop_last();
        let b1 = b.drop_last();
        assert forall|x: Seq<char>| a1.contains(x) <==> b1.contains(x) by {
            text::lemma_text_order(x, la, x);
            if a1.contains(x) {
                let k = choose|k: int| 0 <= k < a1.len() && a1[k] == x;
                assert(a[k] == x);
                assert(text::text_less(a[k], a[a.len() - 1]));
                assert(a.contains(x));
                let m = choose|m: int| 0 <= m < b.len() && b[m] == x;
                assert(b1[m] == x);
            }
            if b1.contains(x) {
                let k = choose|k: int| 0 <= k < b1.len() && b1[k] == x;
                assert(b[k] == x);
                assert(text::text_less(b[k], b[b.len() - 1]));
                assert(b.contains(x));
                let m = choose|m: int| 0 <= m < a.len() && a[m] == x;
                assert(a1[m] == x);
            }
        }
        assert forall|p: int, q: int| 0 <= p < q < a1.len() implies text::text_less(
            #[trigger] a1[p],
            #[trigger] a1[q],
        ) by {
            assert(a1[p] == a[p] && a1[q] == a[q]);
        }
        assert forall|p: int, q: int| 0 <= p < q < b1.len() implies text::text_less(
            #[trigger] b1[p],
            #[trigger] b1[q],
        ) by {
            assert(b1[p] == b[p] && b1[q] == b[q]);
        }
        lemma_sorted_texts_are_canonical(a1, b1);
        assert(a =~= a1.push(la));
        assert(b =~= b1.push(lb));
    }
}

/// A list of bindings, as the model of an environment: name and value.
pub type Bindings = Seq<(Seq<char>, Seq<char>)>;

/// The names that are bound, in the order of the bindings.
pub open spec fn names(s: Bindings) -> Seq<Seq<char>> {
    s.map_values(|b: (Seq<char>, Seq<char>)| b.0)
}

/// The bindings stand in ascending order of their names, no name twice.
pub open spec fn sorted_keys(s: Bindings) -> bool {
    sorted_texts(names(s))
}

/// No name is bound twice.
pub open spec fn distinct_keys(s: Bindings) -> bool {
    forall|i: int, j: int| 0 <= i < j < s.len() ==> s[i].0 != s[j].0
}

/// `key` is bound in `s`.
pub open spec fn has_key(s: Bindings, key: Seq<char>) -> bool {
    exists|i: int| 0 <= i < s.len() && s[i].0 == key
}

/// A position at which `key` is bound in `s`, if it is bound at all.
pub open spec fn key_index(s: Bindings, key: Seq<char>) -> int {
    choose|i: int| 0 <= i < s.len() && s[i].0 == key
}

/// The value bound to `key`, if any.
pub open spec fn lookup(s: Bindings, key: Seq<char>) -> Option<Seq<char>> {
    if has_key(s, key) {
        Some(s[key_index(s, key)].1)
    } else {
        None
    }
}

/// `s` after binding `key` to `value`: an existing binding is overwritten
/// where it stands, a new one is put where its name belongs.
pub open spec fn with_binding(s: Bindings, key: Seq<char>, value: Seq<char>) -> Bindings {
    let r = text_rank(names(s), key, 0);
    if r < s.len() && s[r].0 == key {
        s.update(r, (key, value))
    } else {
        s.insert(r, (key, value))
    }
}

/// The bindings as a map from name to value.
pub open spec fn as_map(s: Bindings) -> Map<Seq<char>, Seq<char>> {
    Map::new(|k: Seq<char>| has_key(s, k), |k: Seq<char>| s[key_index(s, k)].1)
}

/// In sorted bindings no name is bound twice, and a name is bound at its
/// place or nowhere.
pub proof fn lemma_sorted_keys(s: Bindings, key: Seq<char>)
    requires
        sorted_keys(s),
    ensures
        distinct_keys(s),
        has_key(s, key) <==> (text_rank(names(s), key, 0) < s.len() && s[text_rank(
            names(s),
            key,
            0,
        )].0 == key),
        has_key(s, key) ==> key_index(s, key) == text_rank(names(s), key, 0),
{
    let n = names(s);
    let r = text_rank(n, key, 0);
    lemma_text_rank(n, key, 0);
    lemma_sorted_texts(n, key);
    assert forall|i: int, j: int| 0 <= i < j < s.len() implies s[i].0 != s[j].0 by {
        assert(n[i] == s[i].0 && n[j] == s[j].0);
    }
    if r < s.len() {
        assert(n[r] == s[r].0);
    }
    if has_key(s, key) {
        let k = key_index(s, key);
        assert(n[k] == key);
        assert(n.contains(key));
        if k < r {
            assert(s[k].0 != s[r].0);
        } else if r < k {
            assert(s[r].0 != s[k].0);
        }
    }
}

/// Binding a name keeps the bindings sorted, and the name is bound
/// afterwards.
pub proof fn lemma_with_binding_sorted(s: Bindings, key: Seq<char>, value: Seq<char>)
    requires
        sorted_keys(s),
    ensures
        sorted_keys(with_binding(s, key, value)),
        distinct_keys(with_binding(s, key, value)),
        has_key(with_binding(s, key, value), key),
        names(with_binding(s, key, value)) == with_text(names(s), key),
{
    let n = names(s);
    let r = text_rank(n, key, 0);
    lemma_text_rank(n, key, 0);
    lemma_sorted_texts(n, key);
    let t = with_binding(s, key, value);
    if r < s.len() {
        assert(n[r] == s[r].0);
    }
    assert(names(t) =~= with_text(n, key));
    assert(t[r].0 == key);
    lemma_sorted_keys(t, key);
}

/// Binding a name is an insertion into the map of bindings: the name now
/// yields the new value and every other name what it yielded before.
pub proof fn lemma_with_binding_as_map(s: Bindings, key: Seq<char>, value: Seq<char>)
    requires
        sorted_keys(s),
    ensures
        as_map(with_binding(s, key, value)) == as_map(s).insert(key, value),
{
    let n = names(s);
    let r = text_rank(n, key, 0);
    lemma_text_rank(n, key, 0);
    let t = with_binding(s, key, value);
    lemma_with_binding_sorted(s, key, value);
    lemma_sorted_keys(s, key);
    lemma_sorted_keys(t, key);
    let replaced = r < s.len() && s[r].0 == key;
    assert forall|k: Seq<char>| has_key(t, k) <==> (k == key || has_key(s, k)) by {
        if has_key(t, k) && k != key {
            let i = key_index(t, k);
            if replaced {
                assert(s[i].0 == k);
            } else if i < r {
                assert(s[i].0 == k);
            } else {
                assert(s[i - 1].0 == k);
            }
        }
        if has_key(s, k) && k != key {
            let i = key_index(s, k);
            if replaced {
                assert(t[i].0 == k);
            } else if i < r {
                assert(t[i].0 == k);
            } else {
                assert(t[i + 1].0 == k);
            }
        }
    }
    assert forall|k: Seq<char>| has_key(t, k) implies #[trigger] as_map(t)[k] == as_map(s).insert(
        key,
        value,
    )[k] by {
        lemma_sorted_keys(t, k);
        lemma_sorted_keys(s, k);
        let i = key_index(t, k);
        if k == key {
            assert(t[r].0 == key);
        } else {
            let j = key_index(s, k);
            if replaced {
                assert(t[j].0 == k);
            } else if j < r {
                assert(t[j].0 == k);
            } else {
                assert(t[j + 1].0 == k);
            }
        }
    }
    assert(as_map(t) =~= as_map(s).insert(key, value));
}

/// Sorted bindings are fixed by what they bind: two environments that bind
/// the same names to the same values are the same environment, in whatever
/// order they were built.
pub proof fn lemma_sorted_bindings_are_canonical(a: Bindings, b: Bindings)
    requires
        sorted_keys(a),
        sorted_keys(b),
        as_map(a) == as_map(b),
    ensures
        a == b,
{
    let na = names(a);
    let nb = names(b);
    assert forall|x: Seq<char>| na.contains(x) <==> nb.contains(x) by {
        assert(as_map(a).dom().contains(x) == has_key(a, x));
        assert(as_map(b).dom().contains(x) == has_key(b, x));
        if na.contains(x) {
            let k = choose|k: int| 0 <= k < na.len() && na[k] == x;
            assert(a[k].0 == x);
            assert(has_key(a, x));
            assert(has_key(b, x));
            assert(nb[key_index(b, x)] == x);
        }
        if nb.contains(x) {
            let k = choose|k: int| 0 <= k < nb.len() && nb[k] == x;
            assert(b[k].0 == x);
            assert(has_key(b, x));
            assert(has_key(a, x));
            assert(na[key_index(a, x)] == x);
        }
    }
    lemma_sorted_texts_are_canonical(na, nb);
    assert(na.len() == a.len() && nb.len() == b.len());
    assert forall|i: int| 0 <= i < a.len() implies a[i] == b[i] by {
        let k = a[i].0;
        assert(na[i] == k && nb[i] == b[i].0);
        lemma_sorted_keys(a, k);
        lemma_sorted_keys(b, k);
        assert(has_key(a, k) && has_key(b, k));
        assert(key_index(a, k) == i) by {
            let x = key_index(a, k);
            if x < i {
                assert(a[x].0 != a[i].0);
            } else if i < x {
                assert(a[i].0 != a[x].0);
            }
        }
        assert(key_index(b, k) == i) by {
            let x = key_index(b, k);
            if x < i {
                assert(b[x].0 != b[i].0);
            } else if i < x {
                assert(b[i].0 != b[x].0);
            }
        }
        assert(as_map(a)[k] == a[i].1);
        assert(as_map(b)[k] == b[i].1);
    }
    assert(a =~= b);
}

/// Finds where `key` is bound in a list whose names are distinct.
fn position(list: &Vec<(String, String)>, key: &str) -> (at: Option<usize>)
    requires
        distinct_keys(list.deep_view()),
    ensures
        at is Some <==> has_key(list.deep_view(), key@),
        at is Some ==> at->0 == key_index(list.deep_view(), key@),
{
    let mut i: usize = 0;
    while i < list.len()
        invariant
            i <= list.len(),
            distinct_keys(list.deep_view()),
            forall|j: int| 0 <= j < i ==> list.deep_view()[j].0 != key@,
        decreases list.len() - i,
    {
        if text::equal(list[i].0.as_str(), key) {
            assert(list.deep_view()[i as int].0 == key@);
            return Some(i);
        }
        i = i + 1;
    }
    None
}

/// The environment of a process: names bound to values, each name once,
/// in ascending order of the names.
#[derive(Debug, PartialEq, Eq)]
pub struct Env {
    bindings: Vec<(String, String)>,
}

impl View for Env {
    type V = Bindings;

    closed spec fn view(&self) -> Bindings {
        self.bindings.deep_view()
    }
}

impl Clone for Env {
    fn clone(&self) -> (e: Self)
        ensures
            e@ == self@,
    {
        proof {
            use_type_invariant(self);
        }
        let mut list: Vec<(String, String)> = Vec::new();
        let mut i: usize = 0;
        while i < self.bindings.len()
            invariant
                i <= self.bindings.len(),
                list.len() == i,
                forall|j: int| 0 <= j < i ==> list@[j].deep_view() == self.bindings@[j].deep_view(),
            decreases self.bindings.len() - i,
        {
            let pair = &self.bindings[i];
            list.push((pair.0.clone(), pair.1.clone()));
            i = i + 1;
        }
        assert(list.deep_view() =~= self.bindings.deep_view());
        Env { bindings: list }
    }
}

impl Env {
    #[verifier::type_invariant]
    spec fn inv(self) -> bool {
        sorted_keys(self.bindings.deep_view())
    }

    /// The empty environment.
    pub fn new() -> (e: Env)
        ensures
            e@ == Seq::<(Seq<char>, Seq<char>)>::empty(),
    {
        let e = Env { bindings: Vec::new() };
        assert(e@ =~= Seq::<(Seq<char>, Seq<char>)>::empty());
        e
    }

    /// The number of names bound.
    pub fn len(&self) -> (n: usize)
        ensures
            n == self@.len(),
    {
        self.bindings.len()
    }

    /// Binds `key` to `value`, overwriting what `key` was bound to.
    pub fn insert(&mut self, key: String, value: String)
        ensures
            final(self)@ == with_binding(old(self)@, key@, value@),
            sorted_keys(old(self)@),
            sorted_keys(final(self)@),
    {
        proof {
            use_type_invariant(&*self);
        }
        let mut list: Vec<(String, String)> = Vec::new();
        core::mem::swap(&mut self.bindings, &mut list);
        let ghost before = list.deep_view();
        proof {
            lemma_with_binding_sorted(before, key@, value@);
            lemma_text_rank(names(before), key@, 0);
        }
        let mut r: usize = 0;
        while r < list.len() && text::less(list[r].0.as_str(), key.as_str())
            invariant
                r <= list.len(),
                list.deep_view() == before,
                text_rank(names(before), key@, r as int) == text_rank(names(before), key@, 0),
            decreases list.len() - r,
        {
            assert(names(before)[r as int] == before[r as int].0);
            r = r + 1;
        }
        proof {
            if r < list.len() {
                assert(names(before)[r as int] == before[r as int].0);
            }
            assert(r == text_rank(names(before), key@, 0));
        }
        if r < list.len() && text::equal(list[r].0.as_str(), key.as_str()) {
            list.set(r, (key, value));
            assert(list.deep_view() =~= with_binding(before, key@, value@));
        } else {
            list.insert(r, (key, value));
            assert(list.deep_view() =~= with_binding(before, key@, value@));
        }
        core::mem::swap(&mut self.bindings, &mut list);
    }

    /// The value bound to `key`, if any.
    pub fn get(&self, key: &str) -> (value: Option<String>)
        ensures
            value.deep_view() == lookup(self@, key@),
    {
        proof {
            use_type_invariant(self);
            lemma_sorted_keys(self@, key@);
        }
        match position(&self.bindings, key) {
            Some(i) => Some(self.bindings[i].1.clone()),
            None => None,
        }
    }

    /// The bindings in ascending order of their names, as pairs of name
    /// and value.
    pub fn entries(&self) -> (list: &Vec<(String, String)>)
        ensures
            list.deep_view() == self@,
            sorted_keys(self@),
    {
        proof {
            use_type_invariant(self);
        }
        &self.bindings
    }
}

/// Copies a list of strings.
pub fn clone_strings(list: &Vec<String>) -> (copy: Vec<String>)
    ensures
        copy.deep_view() == list.deep_view(),
{
    let mut copy: Vec<String> = Vec::new();
    let mut i: usize = 0;
    while i < list.len()
        invariant
            i <= list.len(),
            copy.len() == i,
            forall|j: int| 0 <= j < i ==> copy@[j]@ == list@[j]@,
        decreases list.len() - i,
    {
        copy.push(list[i].clone());
        i = i + 1;
    }
    assert(copy.deep_view() =~= list.deep_view());
    copy
}

/// Finds the place at which `path` stands in a list of paths, or would
/// have to stand.
fn path_rank(list: &Vec<String>, path: &str) -> (r: usize)
    ensures
        r == text_rank(list.deep_view(), path@, 0),
        r <= list.len(),
{
    proof {
        lemma_text_rank(list.deep_view(), path@, 0);
    }
    let mut r: usize = 0;
    while r < list.len() && text::less(list[r].as_str(), path)
        invariant
            r <= list.len(),
            text_rank(list.deep_view(), path@, r as int) == text_rank(list.deep_view(), path@, 0),
        decreases list.len() - r,
    {
        r = r + 1;
    }
    r
}

/// A set of paths, kept in ascending order.
#[derive(Debug, PartialEq, Eq)]
pub struct PathSet {
    paths: Vec<String>,
}

impl View for PathSet {
    type V = Seq<Seq<char>>;

    closed spec fn view(&self) -> Seq<Seq<char>> {
        self.paths.deep_view()
    }
}

impl Clone for PathSet {
    fn clone(&self) -> (set: Self)
        ensures
            set@ == self@,
    {
        proof {
            use_type_invariant(self);
        }
        PathSet { paths: clone_strings(&self.paths) }
    }
}

impl PathSet {
    #[verifier::type_invariant]
    spec fn inv(self) -> bool {
        sorted_texts(self.paths.deep_view())
    }

    /// The empty set.
    pub fn new() -> (set: PathSet)
        ensures
            set@ == Seq::<Seq<char>>::empty(),
    {
        let set = PathSet { paths: Vec::new() };
        assert(set@ =~= Seq::<Seq<char>>::empty());
        set
    }

    /// The number of paths in the set.
    pub fn len(&self) -> (n: usize)
        ensures
            n == self@.len(),
    {
        self.paths.len()
    }

    /// Tells whether `path` is in the set.
    pub fn contains(&self, path: &str) -> (b: bool)
        ensures
            b == self@.contains(path@),
    {
        proof {
            use_type_invariant(self);
            lemma_sorted_texts(self@, path@);
        }
        let r = path_rank(&self.paths, path);
        r < self.paths.len() && text::equal(self.paths[r].as_str(), path)
    }

    /// Adds `path` unless it is there already, and tells whether it was
    /// added.
    pub fn insert(&mut self, path: String) -> (added: bool)
        ensures
            added == !old(self)@.contains(path@),
            final(self)@ == with_text(old(self)@, path@),
            sorted_texts(old(self)@),
            sorted_texts(final(self)@),
    {
        proof {
            use_type_invariant(&*self);
            lemma_sorted_texts(self@, path@);
        }
        let r = path_rank(&self.paths, path.as_str());
        if r < self.paths.len() && text::equal(self.paths[r].as_str(), path.as_str()) {
            false
        } else {
            let mut list: Vec<String> = Vec::new();
            core::mem::swap(&mut self.paths, &mut list);
            let ghost before = list.deep_view();
            list.insert(r, path);
            assert(list.deep_view() =~= before.insert(r as int, path@));
            core::mem::swap(&mut self.paths, &mut list);
            true
        }
    }

    /// The paths in ascending order.
    pub fn paths(&self) -> (list: &Vec<String>)
        ensures
            list.deep_view() == self@,
            sorted_texts(self@),
    {
        proof {
            use_type_invariant(self);
        }
        &self.paths
    }
}

/// What is mixed into the digest of every request: where and under which
/// cache generation it is meant to run.
#[derive(Debug, PartialEq, Eq)]
pub struct ExecuteProcessRequestMetadata {
    pub instance_name: Option<String>,
    pub cache_key_gen_version: Option<String>,
    pub platform_properties: Vec<(String, String)>,
}

/// The model of [`ExecuteProcessRequestMetadata`].
pub struct MetadataView {
    pub instance_name: Option<Seq<char>>,
    pub cache_key_gen_version: Option<Seq<char>>,
    pub platform_properties: Bindings,
}

impl View for ExecuteProcessRequestMetadata {
    type V = MetadataView;

    open spec fn view(&self) -> MetadataView {
        MetadataView {
            instance_name: self.instance_name.deep_view(),
            cache_key_gen_version: self.cache_key_gen_version.deep_view(),
            platform_properties: self.platform_properties.deep_view(),
        }
    }
}

/// A request to run one process.
#[derive(Debug, PartialEq, Eq)]
pub struct ExecuteProcessRequest {
    /// The command line, program first.
    pub argv: Vec<String>,
    /// The environment the process sees.
    pub env: Env,
    /// Digest of the files the process reads.
    pub input_files: Digest,
    /// Files the process is expected to write.
    pub output_files: PathSet,
    /// Directories the process is expected to write.
    pub output_directories: PathSet,
    /// How long the process may run.
    pub timeout: Timeout,
    /// What the process does, for people.
    pub description: String,
    /// Digest of files that are only ever used locally.
    pub unsafe_local_only_files_because_we_favor_speed_over_correctness_for_this_rule: Digest,
    /// Where the JDK lives, for requests that run on a JVM.
    pub jdk_home: Option<String>,
    /// The platform the process is meant for.
    pub target_platform: Platform,
    /// Whether the process may be run through a resident nailgun server.
    pub is_nailgunnable: bool,
}

/// The model of [`ExecuteProcessRequest`].
pub struct RequestView {
    pub argv: Seq<Seq<char>>,
    pub env: Bindings,
    pub input_files: DigestView,
    pub output_files: Seq<Seq<char>>,
    pub output_directories: Seq<Seq<char>>,
    pub timeout: Timeout,
    pub description: Seq<char>,
    pub local_only_files: DigestView,
    pub jdk_home: Option<Seq<char>>,
    pub target_platform: Platform,
    pub is_nailgunnable: bool,
}

impl View for ExecuteProcessRequest {
    type V = RequestView;

    open spec fn view(&self) -> RequestView {
        RequestView {
            argv: self.argv.deep_view(),
            env: self.env@,
            input_files: self.input_files@,
            output_files: self.output_files@,
            output_directories: self.output_directories@,
            timeout: self.timeout,
            description: self.description@,
            local_only_files:
                self.unsafe_local_only_files_because_we_favor_speed_over_correctness_for_this_rule@,
            jdk_home: self.jdk_home.deep_view(),
            target_platform: self.target_platform,
            is_nailgunnable: self.is_nailgunnable,
        }
    }
}

/// Copies an optional string.
pub fn clone_optional(value: &Option<String>) -> (copy: Option<String>)
    ensures
        copy.deep_view() == value.deep_view(),
{
    match value {
        Some(s) => Some(s.clone()),
        None => None,
    }
}

impl Clone for ExecuteProcessRequest {
    fn clone(&self) -> (copy: Self)
        ensures
            copy@ == self@,
    {
        ExecuteProcessRequest {
            argv: clone_strings(&self.argv),
            env: self.env.clone(),
            input_files: self.input_files,
            output_files: self.output_files.clone(),
            output_directories: self.output_directories.clone(),
            timeout: self.timeout,
            description: self.description.clone(),
            unsafe_local_only_files_because_we_favor_speed_over_correctness_for_this_rule:
                self.unsafe_local_only_files_because_we_favor_speed_over_correctness_for_this_rule,
            jdk_home: clone_optional(&self.jdk_home),
            target_platform: self.target_platform,
            is_nailgunnable: self.is_nailgunnable,
        }
    }
}

} // verus!
