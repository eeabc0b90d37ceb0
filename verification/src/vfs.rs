//! A virtual file system of behavior tree sources, and the in-memory one that serves the
//! sources the game starts with.

use vstd::prelude::*;
use vstd::string::*;
use crate::text::{collapse_newlines, collapsed, str_less, str_lt, lemma_str_lt_irreflexive,
    lemma_str_lt_transitive, lemma_str_lt_total};

verus! {

/// A virtual filesystem, which could be in-memory, in-disk or on local storage of the browser
pub trait Vfs {
    fn list_files(&self) -> Vec<String>;

    fn get_file(&self, file: &str) -> Result<String, String>;

    fn save_file(&mut self, file: &str, contents: &str) -> Result<(), String>;

    fn delete_file(&mut self, file: &str) -> Result<(), String>;

    /// Dangerous - it resets the whole filesystem!
    fn reset(&mut self) -> Result<(), String>;
}

/// The views of a list of names.
pub open spec fn name_views(names: Seq<String>) -> Seq<Seq<char>> {
    names.map_values(|s: String| s@)
}

/// Each name comes before the next.
pub open spec fn strictly_sorted(names: Seq<Seq<char>>) -> bool {
    forall|i: int, j: int| 0 <= i < j < names.len() ==> str_lt(#[trigger] names[i], #[trigger] names[j])
}

/// Of `names`, those not yet in `got` and after `last`, the first one.
proof fn lemma_missing_name(names: Seq<Seq<char>>, got: Seq<Seq<char>>)
    requires
        names.no_duplicates(),
        got.no_duplicates(),
        got.len() < names.len(),
    ensures
        exists|j: int| 0 <= j < names.len() && !got.contains(names[j]),
{
    broadcast use vstd::seq_lib::seq_to_set_is_finite;
    names.unique_seq_to_set();
    got.unique_seq_to_set();
    if forall|j: int| 0 <= j < names.len() ==> got.contains(names[j]) {
        assert(names.to_set().subset_of(got.to_set()));
        vstd::set_lib::lemma_len_subset(names.to_set(), got.to_set());
    }
}

/// The given names in increasing order.
pub fn sort_names(names: &Vec<String>) -> (res: Vec<String>)
    requires
        name_views(names@).no_duplicates(),
    ensures
        name_views(res@).to_set() == name_views(names@).to_set(),
        res.len() == names.len(),
        strictly_sorted(name_views(res@)),
{
    let ghost src = name_views(names@);
    let mut res: Vec<String> = Vec::new();
    while res.len() < names.len()
        invariant
            src == name_views(names@),
            src.no_duplicates(),
            res.len() <= names.len(),
            strictly_sorted(name_views(res@)),
            forall|i: int| 0 <= i < res.len() ==> src.contains(#[trigger] res@[i]@),
            res.len() > 0 ==> forall|j: int| 0 <= j < names.len() && !str_lt(res@.last()@, #[trigger] src[j])
                ==> name_views(res@).contains(src[j]),
        decreases names.len() - res.len(),
    {
        let ghost got = name_views(res@);
        proof {
            assert forall|i: int, j: int| 0 <= i < got.len() && 0 <= j < got.len() && i != j implies got[i] != got[j] by {
                if i < j {
                    assert(str_lt(got[i], got[j]));
                    lemma_str_lt_irreflexive(got[i]);
                } else {
                    assert(str_lt(got[j], got[i]));
                    lemma_str_lt_irreflexive(got[j]);
                }
            }
            lemma_missing_name(src, got);
        }
        // the first name after the last one taken
        let mut best: Option<usize> = None;
        let mut j: usize = 0;
        while j < names.len()
            invariant
                src == name_views(names@),
                j <= names.len(),
                best is Some ==> best->0 < names.len(),
                best is Some ==> res.len() == 0 || str_lt(res@.last()@, src[best->0 as int]),
                forall|k: int| 0 <= k < j && (res.len() == 0 || str_lt(res@.last()@, #[trigger] src[k])) ==>
                    best is Some && !str_lt(src[k], src[best->0 as int]),
            decreases names.len() - j,
        {
            let after_last = res.len() == 0 || str_less(res[res.len() - 1].as_str(), names[j].as_str());
            if after_last {
                let better = match best {
                    None => true,
                    Some(b) => str_less(names[j].as_str(), names[b].as_str()),
                };
                if better {
                    proof {
                        assert forall|k: int| 0 <= k < j && (res.len() == 0 || str_lt(res@.last()@, #[trigger] src[k]))
                            implies !str_lt(src[k], src[j as int]) by {
                            let b = best->0 as int;
                            if str_lt(src[k], src[j as int]) {
                                lemma_str_lt_transitive(src[k], src[j as int], src[b]);
                            }
                        }
                        lemma_str_lt_irreflexive(src[j as int]);
                    }
                    best = Some(j);
                }
                proof {
                    if !better {
                        let b = best->0 as int;
                        if src[j as int] != src[b] {
                            lemma_str_lt_total(src[j as int], src[b]);
                        } else {
                            lemma_str_lt_irreflexive(src[b]);
                        }
                    }
                }
            }
            j += 1;
        }
        proof {
            let m = choose|m: int| 0 <= m < names.len() && !got.contains(src[m]);
            if res.len() > 0 {
                if !str_lt(res@.last()@, src[m]) {
                    assert(got.contains(src[m]));
                }
            }
            assert(best is Some);
        }
        let b = match best {
            Some(b) => b,
            None => 0,
        };
        let name = names[b].clone();
        let ghost old_res = res@;
        res.push(name);
        proof {
            let v = name_views(res@);
            assert(v =~= name_views(old_res).push(src[b as int]));
            assert forall|i: int, k: int| 0 <= i < k < v.len() implies str_lt(#[trigger] v[i], #[trigger] v[k]) by {
                if k == v.len() - 1 && i < k {
                    if old_res.len() > 0 {
                        let last = old_res.last()@;
                        if i < old_res.len() - 1 {
                            let w = name_views(old_res);
                            assert(w[i] == v[i]);
                            assert(w[w.len() - 1] == last);
                            assert(str_lt(w[i], w[w.len() - 1]));
                            lemma_str_lt_transitive(v[i], last, src[b as int]);
                        }
                    }
                } else {
                    assert(v[i] == name_views(old_res)[i]);
                }
            }
            assert forall|i: int| 0 <= i < res.len() implies src.contains(#[trigger] res@[i]@) by {
                if i < old_res.len() {
                    assert(res@[i] == old_res[i]);
                } else {
                    assert(res@[i]@ == src[b as int]);
                }
            }
            assert forall|k: int| 0 <= k < names.len() && !str_lt(res@.last()@, #[trigger] src[k])
                implies v.contains(src[k]) by {
                if src[k] == src[b as int] {
                    assert(v[v.len() - 1] == src[k]);
                } else {
                    lemma_str_lt_total(src[k], src[b as int]);
                    if old_res.len() > 0 && !str_lt(old_res.last()@, src[k]) {
                        let w = name_views(old_res);
                        let i = choose|i: int| 0 <= i < w.len() && w[i] == src[k];
                        assert(v[i] == src[k]);
                    } else {
                        assert(!str_lt(src[k], src[b as int]));
                        assert(false);
                    }
                }
            }
        }
    }
    proof {
        let v = name_views(res@);
        assert forall|x: Seq<char>| v.to_set().contains(x) implies src.to_set().contains(x) by {
            let i = choose|i: int| 0 <= i < v.len() && v[i] == x;
            assert(src.contains(res@[i]@));
        }
        assert forall|x: Seq<char>| src.to_set().contains(x) implies v.to_set().contains(x) by {
            let j = choose|j: int| 0 <= j < src.len() && src[j] == x;
            if v.len() > 0 && str_lt(res@.last()@, src[j]) {
                // every name was taken, and no two taken names are the same
                assert forall|a: int, c: int| 0 <= a < v.len() && 0 <= c < v.len() && a != c implies v[a] != v[c] by {
                    if a < c {
                        lemma_str_lt_irreflexive(v[a]);
                    } else {
                        lemma_str_lt_irreflexive(v[c]);
                    }
                }
                assert(v.no_duplicates());
                assert(!v.contains(src[j])) by {
                    if v.contains(src[j]) {
                        let i = choose|i: int| 0 <= i < v.len() && v[i] == src[j];
                        if i < v.len() - 1 {
                            lemma_str_lt_transitive(v[i], v[v.len() - 1], src[j]);
                        }
                        lemma_str_lt_irreflexive(src[j]);
                    }
                }
                assert forall|i: int| 0 <= i < v.len() implies src.contains(#[trigger] v[i]) by {
                    assert(src.contains(res@[i]@));
                }
                lemma_sorted_subset_full(src, v, src[j]);
            }
        }
        assert(v.to_set() =~= src.to_set());
    }
    res
}

/// A list of distinct names taken from `src`, as long as `src`, holds all of `src`.
proof fn lemma_sorted_subset_full(src: Seq<Seq<char>>, v: Seq<Seq<char>>, x: Seq<char>)
    requires
        src.no_duplicates(),
        v.no_duplicates(),
        v.len() == src.len(),
        forall|i: int| 0 <= i < v.len() ==> src.contains(#[trigger] v[i]),
        src.contains(x),
    ensures
        v.contains(x),
{
    broadcast use vstd::seq_lib::seq_to_set_is_finite;
    src.unique_seq_to_set();
    v.unique_seq_to_set();
    assert(v.to_set().subset_of(src.to_set()));
    if !v.contains(x) {
        assert(v.to_set().subset_of(src.to_set().remove(x)));
        vstd::set_lib::lemma_len_subset(v.to_set(), src.to_set().remove(x));
    }
}

/// The views of a list of entries, each a name and its contents.
pub open spec fn entry_views(s: Seq<(String, String)>) -> Seq<(Seq<char>, Seq<char>)> {
    s.map_values(|p: (String, String)| (p.0@, p.1@))
}

/// The names of a list of entries.
pub open spec fn entry_names(s: Seq<(Seq<char>, Seq<char>)>) -> Seq<Seq<char>> {
    s.map_values(|p: (Seq<char>, Seq<char>)| p.0)
}

/// The files that a list of entries holds: each name with its contents.
pub open spec fn entries_map(s: Seq<(Seq<char>, Seq<char>)>) -> Map<Seq<char>, Seq<char>>
    decreases s.len(),
{
    if s.len() == 0 {
        Map::empty()
    } else {
        entries_map(s.drop_last()).insert(s.last().0, s.last().1)
    }
}

/// In a list of entries with distinct names, each name maps to its own contents, and nothing
/// else is in the map.
proof fn lemma_entries_map(s: Seq<(Seq<char>, Seq<char>)>)
    requires
        entry_names(s).no_duplicates(),
    ensures
        forall|i: int| 0 <= i < s.len() ==> #[trigger] entries_map(s).contains_key(s[i].0)
            && entries_map(s)[s[i].0] == s[i].1,
        forall|k: Seq<char>| #[trigger] entries_map(s).contains_key(k) ==> exists|i: int| 0 <= i < s.len() && s[i].0 == k,
    decreases s.len(),
{
    if s.len() > 0 {
        let t = s.drop_last();
        assert(entry_names(t) =~= entry_names(s).drop_last());
        lemma_entries_map(t);
        assert forall|i: int| 0 <= i < s.len() implies #[trigger] entries_map(s).contains_key(s[i].0)
            && entries_map(s)[s[i].0] == s[i].1 by {
            if i < s.len() - 1 {
                assert(t[i] == s[i]);
                assert(entry_names(s)[i] == s[i].0);
                assert(entry_names(s)[s.len() - 1] == s.last().0);
                assert(entry_names(s)[i] != entry_names(s)[s.len() - 1]);
                assert(entries_map(t).contains_key(t[i].0));
            }
        }
        assert forall|k: Seq<char>| #[trigger] entries_map(s).contains_key(k) implies exists|i: int| 0 <= i < s.len() && s[i].0 == k by {
            if k != s.last().0 {
                assert(entries_map(t).contains_key(k));
                let i = choose|i: int| 0 <= i < t.len() && t[i].0 == k;
                assert(s[i] == t[i]);
            } else {
                assert(s[s.len() - 1].0 == k);
            }
        }
    }
}

/// Two lists of entries with distinct names that hold the same files hold the same map.
proof fn lemma_entries_map_ext(s: Seq<(Seq<char>, Seq<char>)>, m: Map<Seq<char>, Seq<char>>)
    requires
        entry_names(s).no_duplicates(),
        forall|i: int| 0 <= i < s.len() ==> #[trigger] m.contains_key(s[i].0) && m[s[i].0] == s[i].1,
        forall|k: Seq<char>| #[trigger] m.contains_key(k) ==> exists|i: int| 0 <= i < s.len() && s[i].0 == k,
    ensures
        entries_map(s) == m,
{
    lemma_entries_map(s);
    assert forall|k: Seq<char>| #[trigger] entries_map(s).contains_key(k) <==> m.contains_key(k) by {
        if m.contains_key(k) {
            let i = choose|i: int| 0 <= i < s.len() && s[i].0 == k;
            assert(entries_map(s).contains_key(s[i].0));
        }
    }
    assert forall|k: Seq<char>| #[trigger] entries_map(s).contains_key(k) implies entries_map(s)[k] == m[k] by {
        let i = choose|i: int| 0 <= i < s.len() && s[i].0 == k;
        assert(entries_map(s).contains_key(s[i].0));
    }
    assert(entries_map(s) =~= m);
}

/// A reference implementation of [`Vfs`]. It serves static set of files, but won't retain changes between sessions.
pub struct StaticVfs {
    files: Vec<(String, String)>,
    defaults: Vec<(String, String)>,
}

impl View for StaticVfs {
    type V = Map<Seq<char>, Seq<char>>;

    closed spec fn view(&self) -> Map<Seq<char>, Seq<char>> {
        entries_map(entry_views(self.files@))
    }
}

impl StaticVfs {
    #[verifier::type_invariant]
    spec fn names_distinct(&self) -> bool {
        &&& entry_names(entry_views(self.files@)).no_duplicates()
        &&& entry_names(entry_views(self.defaults@)).no_duplicates()
    }

    /// The files the file system starts with, and holds again after a reset.
    pub closed spec fn initial(&self) -> Map<Seq<char>, Seq<char>> {
        entries_map(entry_views(self.defaults@))
    }

    /// The five behavior tree sources of the game, with their line endings collapsed.
    pub fn new(
        green_agent: &str,
        green_spawner: &str,
        red_agent: &str,
        red_spawner: &str,
        agent_early: &str,
    ) -> (res: Self)
        ensures
            res@ == Map::<Seq<char>, Seq<char>>::empty()
                .insert("green/agent.btc"@, collapsed(green_agent@))
                .insert("green/spawner.btc"@, collapsed(green_spawner@))
                .insert("red/agent.btc"@, collapsed(red_agent@))
                .insert("red/spawner.btc"@, collapsed(red_spawner@))
                .insert("agent_early.btc"@, collapsed(agent_early@)),
            res.initial() == res@,
    {
        let mut files: Vec<(String, String)> = Vec::new();
        files.push((String::from_str("green/agent.btc"), collapse_newlines(green_agent)));
        files.push((String::from_str("green/spawner.btc"), collapse_newlines(green_spawner)));
        files.push((String::from_str("red/agent.btc"), collapse_newlines(red_agent)));
        files.push((String::from_str("red/spawner.btc"), collapse_newlines(red_spawner)));
        files.push((String::from_str("agent_early.btc"), collapse_newlines(agent_early)));
        let defaults = copy_entries(&files);
        proof {
            reveal_strlit("green/agent.btc");
            reveal_strlit("green/spawner.btc");
            reveal_strlit("red/agent.btc");
            reveal_strlit("red/spawner.btc");
            reveal_strlit("agent_early.btc");
            let e = entry_views(files@);
            let names = entry_names(e);
            assert(names[0] == "green/agent.btc"@);
            assert(names[1] == "green/spawner.btc"@);
            assert(names[2] == "red/agent.btc"@);
            assert(names[3] == "red/spawner.btc"@);
            assert(names[4] == "agent_early.btc"@);
            assert(names[0][6] != names[1][6]);
            assert(names[2][4] != names[3][4]);
            assert(names.no_duplicates());
            reveal_with_fuel(entries_map, 6);
            assert(e.drop_last().drop_last().drop_last().drop_last().drop_last() =~= Seq::empty());
            assert(e.drop_last().drop_last().drop_last().drop_last() =~= seq![e[0]]);
            assert(e.drop_last().drop_last().drop_last() =~= seq![e[0], e[1]]);
            assert(e.drop_last().drop_last() =~= seq![e[0], e[1], e[2]]);
            assert(e.drop_last() =~= seq![e[0], e[1], e[2], e[3]]);
        }
        let res = StaticVfs { files, defaults };
        proof {
            assert(entry_views(res.defaults@) == entry_views(res.files@));
        }
        res
    }

    /// The index of the entry named `file`.
    fn find(&self, file: &String) -> (res: Option<usize>)
        ensures
            match res {
                Some(i) => i < self.files@.len() && self.files@[i as int].0@ == file@,
                None => forall|i: int| 0 <= i < self.files@.len() ==> self.files@[i].0@ != file@,
            },
    {
        let mut i: usize = 0;
        while i < self.files.len()
            invariant
                i <= self.files@.len(),
                forall|j: int| 0 <= j < i ==> self.files@[j].0@ != file@,
            decreases self.files@.len() - i,
        {
            if self.files[i].0 == *file {
                return Some(i);
            }
            i += 1;
        }
        None
    }
}

/// A copy of a list of entries.
fn copy_entries(entries: &Vec<(String, String)>) -> (res: Vec<(String, String)>)
    ensures
        entry_views(res@) == entry_views(entries@),
{
    let mut res: Vec<(String, String)> = Vec::new();
    let mut i: usize = 0;
    while i < entries.len()
        invariant
            i <= entries@.len(),
            res@.len() == i,
            forall|j: int| 0 <= j < i ==> res@[j].0@ == entries@[j].0@ && res@[j].1@ == entries@[j].1@,
        decreases entries@.len() - i,
    {
        let (name, contents) = &entries[i];
        res.push((name.clone(), contents.clone()));
        i += 1;
    }
    assert(entry_views(res@) =~= entry_views(entries@));
    res
}

proof fn lemma_entries_push(s: Seq<(Seq<char>, Seq<char>)>, p: (Seq<char>, Seq<char>))
    ensures
        entries_map(s.push(p)) == entries_map(s).insert(p.0, p.1),
{
    assert(s.push(p).drop_last() =~= s);
}

/// Giving a named entry new contents changes the file of that name only.
proof fn lemma_entries_update(s: Seq<(Seq<char>, Seq<char>)>, i: int, v: Seq<char>)
    requires
        entry_names(s).no_duplicates(),
        0 <= i < s.len(),
    ensures
        entry_names(s.update(i, (s[i].0, v))).no_duplicates(),
        entries_map(s.update(i, (s[i].0, v))) == entries_map(s).insert(s[i].0, v),
{
    let t = s.update(i, (s[i].0, v));
    let k = s[i].0;
    assert(entry_names(t) =~= entry_names(s));
    lemma_entries_map(s);
    let m = entries_map(s).insert(k, v);
    assert forall|j: int| 0 <= j < t.len() implies #[trigger] m.contains_key(t[j].0) && m[t[j].0] == t[j].1 by {
        if j != i {
            assert(entry_names(s)[j] != entry_names(s)[i]);
            assert(entries_map(s).contains_key(s[j].0));
        }
    }
    assert forall|key: Seq<char>| #[trigger] m.contains_key(key) implies exists|j: int| 0 <= j < t.len() && t[j].0 == key by {
        if key == k {
            assert(t[i].0 == key);
        } else {
            assert(entries_map(s).contains_key(key));
            let j = choose|j: int| 0 <= j < s.len() && s[j].0 == key;
            assert(t[j].0 == key);
        }
    }
    lemma_entries_map_ext(t, m);
}

/// Taking out a named entry takes out the file of that name only.
proof fn lemma_entries_remove(s: Seq<(Seq<char>, Seq<char>)>, i: int)
    requires
        entry_names(s).no_duplicates(),
        0 <= i < s.len(),
    ensures
        entry_names(s.remove(i)).no_duplicates(),
        entries_map(s.remove(i)) == entries_map(s).remove(s[i].0),
{
    let t = s.remove(i);
    let k = s[i].0;
    assert(entry_names(t) =~= entry_names(s).remove(i));
    assert forall|a: int, b: int| 0 <= a < t.len() && 0 <= b < t.len() && a != b implies
        entry_names(t)[a] != entry_names(t)[b] by {
        let a2 = if a < i { a } else { a + 1 };
        let b2 = if b < i { b } else { b + 1 };
        assert(entry_names(t)[a] == entry_names(s)[a2]);
        assert(entry_names(t)[b] == entry_names(s)[b2]);
    }
    lemma_entries_map(s);
    let m = entries_map(s).remove(k);
    assert forall|j: int| 0 <= j < t.len() implies #[trigger] m.contains_key(t[j].0) && m[t[j].0] == t[j].1 by {
        let j2 = if j < i { j } else { j + 1 };
        assert(t[j] == s[j2]);
        assert(entry_names(s)[j2] == s[j2].0);
        assert(entry_names(s)[i] == s[i].0);
        assert(entry_names(s)[j2] != entry_names(s)[i]);
        assert(entries_map(s).contains_key(s[j2].0));
        assert(m.contains_key(t[j].0));
    }
    assert forall|key: Seq<char>| #[trigger] m.contains_key(key) implies exists|j: int| 0 <= j < t.len() && t[j].0 == key by {
        assert(entries_map(s).contains_key(key));
        let j = choose|j: int| 0 <= j < s.len() && s[j].0 == key;
        assert(j != i);
        if j < i {
            assert(t[j] == s[j]);
        } else {
            assert(t[j - 1] == s[j]);
        }
    }
    lemma_entries_map_ext(t, m);
}

/// The message of a missing file.
fn file_not_found() -> (res: String)
    ensures
        res@ == "File not found"@,
{
    String::from_str("File not found")
}

impl Vfs for StaticVfs {
    fn list_files(&self) -> (res: Vec<String>)
        ensures
            name_views(res@).to_set() == self@.dom(),
            strictly_sorted(name_views(res@)),
    {
        proof {
            use_type_invariant(self);
        }
        let mut names: Vec<String> = Vec::new();
        let mut i: usize = 0;
        while i < self.files.len()
            invariant
                i <= self.files@.len(),
                names@.len() == i,
                forall|j: int| 0 <= j < i ==> (#[trigger] names@[j])@ == self.files@[j].0@,
            decreases self.files@.len() - i,
        {
            names.push(self.files[i].0.clone());
            i += 1;
        }
        proof {
            let e = entry_views(self.files@);
            assert(name_views(names@) =~= entry_names(e));
        }
        let res = sort_names(&names);
        proof {
            let e = entry_views(self.files@);
            lemma_entries_map(e);
            assert forall|k: Seq<char>| #[trigger] self@.dom().contains(k) <==> name_views(names@).to_set().contains(k) by {
                if self@.dom().contains(k) {
                    let j = choose|j: int| 0 <= j < e.len() && e[j].0 == k;
                    assert(name_views(names@)[j] == k);
                }
                if name_views(names@).to_set().contains(k) {
                    let j = choose|j: int| 0 <= j < names@.len() && name_views(names@)[j] == k;
                    assert(entries_map(e).contains_key(e[j].0));
                }
            }
            assert(self@.dom() =~= name_views(names@).to_set());
        }
        res
    }

    fn get_file(&self, file: &str) -> (res: Result<String, String>)
        ensures
            match res {
                Ok(contents) => self@.contains_key(file@) && contents@ == self@[file@],
                Err(msg) => !self@.contains_key(file@) && msg@ == "File not found"@,
            },
    {
        proof {
            use_type_invariant(self);
            lemma_entries_map(entry_views(self.files@));
        }
        let key = file.to_owned();
        match self.find(&key) {
            Some(i) => {
                proof {
                    let e = entry_views(self.files@);
                    assert(e[i as int].0 == file@);
                    assert(entries_map(e).contains_key(e[i as int].0));
                    assert(e[i as int].1 == self.files@[i as int].1@);
                }
                Ok(self.files[i].1.clone())
            },
            None => {
                proof {
                    let e = entry_views(self.files@);
                    if self@.contains_key(file@) {
                        let j = choose|j: int| 0 <= j < e.len() && e[j].0 == file@;
                        assert(self.files@[j].0@ == file@);
                    }
                }
                Err(file_not_found())
            },
        }
    }

    fn save_file(&mut self, file: &str, contents: &str) -> (res: Result<(), String>)
        ensures
            final(self)@ == old(self)@.insert(file@, contents@),
            final(self).initial() == old(self).initial(),
            res is Ok,
    {
        proof {
            use_type_invariant(&*self);
        }
        let key = file.to_owned();
        let value = contents.to_owned();
        match self.find(&key) {
            Some(i) => {
                proof {
                    let e = entry_views(self.files@);
                    lemma_entries_update(e, i as int, contents@);
                    assert(entry_views(self.files@.update(i as int, (key, value))) =~= e.update(
                        i as int,
                        (e[i as int].0, contents@),
                    ));
                }
                let mut files: Vec<(String, String)> = Vec::new();
                std::mem::swap(&mut files, &mut self.files);
                files.set(i, (key, value));
                self.files = files;
            },
            None => {
                proof {
                    let e = entry_views(self.files@);
                    lemma_entries_push(e, (file@, contents@));
                    assert(entry_views(self.files@.push((key, value))) =~= e.push((file@, contents@)));
                    let names = entry_names(e.push((file@, contents@)));
                    assert(names =~= entry_names(e).push(file@));
                    assert forall|a: int, b: int| 0 <= a < names.len() && 0 <= b < names.len() && a != b
                        implies names[a] != names[b] by {
                        if a < e.len() && b < e.len() {
                            assert(names[a] == entry_names(e)[a] && names[b] == entry_names(e)[b]);
                        } else if a < e.len() {
                            assert(self.files@[a].0@ != file@);
                        } else {
                            assert(self.files@[b].0@ != file@);
                        }
                    }
                }
                let mut files: Vec<(String, String)> = Vec::new();
                std::mem::swap(&mut files, &mut self.files);
                files.push((key, value));
                self.files = files;
            },
        }
        Ok(())
    }

    fn delete_file(&mut self, file: &str) -> (res: Result<(), String>)
        ensures
            final(self)@ == old(self)@.remove(file@),
            final(self).initial() == old(self).initial(),
            res is Ok <==> old(self)@.contains_key(file@),
            match res {
                Ok(()) => true,
                Err(msg) => msg@ == "File not found"@,
            },
    {
        proof {
            use_type_invariant(&*self);
            lemma_entries_map(entry_views(self.files@));
        }
        let key = file.to_owned();
        match self.find(&key) {
            Some(i) => {
                proof {
                    let e = entry_views(self.files@);
                    lemma_entries_remove(e, i as int);
                    assert(entry_views(self.files@.remove(i as int)) =~= e.remove(i as int));
                    assert(e[i as int].0 == file@);
                }
                let mut files: Vec<(String, String)> = Vec::new();
                std::mem::swap(&mut files, &mut self.files);
                files.remove(i);
                self.files = files;
                Ok(())
            },
            None => {
                proof {
                    let e = entry_views(self.files@);
                    if self@.contains_key(file@) {
                        let j = choose|j: int| 0 <= j < e.len() && e[j].0 == file@;
                        assert(self.files@[j].0@ == file@);
                    }
                    assert(self@.remove(file@) =~= self@);
                }
                Err(file_not_found())
            },
        }
    }

    fn reset(&mut self) -> (res: Result<(), String>)
        ensures
            final(self)@ == old(self).initial(),
            final(self).initial() == old(self).initial(),
            res is Ok,
    {
        proof {
            use_type_invariant(&*self);
        }
        self.files = copy_entries(&self.defaults);
        Ok(())
    }
}

} // verus!
