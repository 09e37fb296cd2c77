//! The autoloader: the order package files are loaded in, the paths an autoload
//! section names, and the classes a PHP file declares.

use vstd::prelude::*;
use crate::error::{views, ConcertoError};
use crate::json::JsonValue;
use crate::lockfile::{LockedPackage, Lockfile};
use crate::composer::RequiredPackage;
use crate::order::{
    lemma_text_lt_connected, lemma_text_lt_irreflexive, lemma_text_lt_transitive, sort_texts,
    strictly_sorted, text_less, text_lt, text_order,
};
use crate::packagist::opt_view;
use crate::text::{chars_of, concat3, occurs_at, str_eq, string_of, string_of_range, trim_seq};

verus! {

/// Where the autoloader entry file is written.
pub const AUTOLOAD_PATH: &'static str = "vendor/autoload.php";

/// Where the autoload map is written.
pub const LOADER_PATH: &'static str = "vendor/concerto_autoload.php";

// ---------------------------------------------------------------------------
// Classes a PHP file declares
// ---------------------------------------------------------------------------

/// `class`, `interface`, `trait` or `enum`.
pub open spec fn is_type_keyword(word: Seq<char>) -> bool {
    word == "class"@ || word == "interface"@ || word == "trait"@ || word == "enum"@
}

/// Whether `word` declares a type.
pub fn is_php_type_keyword(word: &str) -> (r: bool)
    ensures
        r == is_type_keyword(word@),
{
    str_eq(word, "class") || str_eq(word, "interface") || str_eq(word, "trait") || str_eq(word, "enum")
}

/// An ASCII letter or digit, `_` or `\`.
pub open spec fn is_symbol_char(c: char) -> bool {
    ('a' <= c && c <= 'z') || ('A' <= c && c <= 'Z') || ('0' <= c && c <= '9') || c == '_' || c
        == '\\'
}

/// Whether `c` may be part of a PHP name.
pub fn is_php_symbol_character(c: char) -> (r: bool)
    ensures
        r == is_symbol_char(c),
{
    ('a' <= c && c <= 'z') || ('A' <= c && c <= 'Z') || ('0' <= c && c <= '9') || c == '_' || c
        == '\\'
}

/// The class name in its namespace.
pub open spec fn qualified_spec(namespace: Option<Seq<char>>, class: Seq<char>) -> Seq<char> {
    match namespace {
        Some(n) => n + "\\"@ + class,
        None => class,
    }
}

/// The class name in its namespace.
pub fn qualified_class_name(namespace: Option<&str>, class: &str) -> (r: String)
    ensures
        r@ == qualified_spec(
            match namespace {
                Some(n) => Some(n@),
                None => None,
            },
            class@,
        ),
{
    match namespace {
        Some(namespace) => concat3(namespace, "\\", class),
        None => crate::text::owned(class),
    }
}

/// The first position where `needle` occurs in `s`.
pub open spec fn first_occurrence(s: Seq<char>, needle: Seq<char>, i: int) -> bool {
    occurs_at(s, needle, i) && forall|j: int| 0 <= j < i ==> !occurs_at(s, needle, j)
}

/// The first position of `;` or `{` in `s`.
pub open spec fn first_terminator(s: Seq<char>, i: int) -> bool {
    0 <= i < s.len() && (s[i] == ';' || s[i] == '{') && forall|j: int|
        0 <= j < i ==> s[j] != ';' && s[j] != '{'
}

/// The namespace a PHP file declares: the text after the first `namespace ` up to the
/// next `;` or `{`, trimmed; none when either is missing or the text is blank.
pub open spec fn namespace_spec(content: Seq<char>) -> Option<Seq<char>> {
    let needle = "namespace "@;
    if exists|i: int| first_occurrence(content, needle, i) {
        let i = choose|i: int| first_occurrence(content, needle, i);
        let rest = content.subrange(i + needle.len(), content.len() as int);
        if exists|e: int| first_terminator(rest, e) {
            let e = choose|e: int| first_terminator(rest, e);
            let name = trim_seq(rest.subrange(0, e));
            if name.len() == 0 {
                None
            } else {
                Some(name)
            }
        } else {
            None
        }
    } else {
        None
    }
}

proof fn lemma_first_occurrence_unique(s: Seq<char>, needle: Seq<char>, i: int, j: int)
    requires
        first_occurrence(s, needle, i),
        first_occurrence(s, needle, j),
    ensures
        i == j,
{
}

proof fn lemma_first_terminator_unique(s: Seq<char>, i: int, j: int)
    requires
        first_terminator(s, i),
        first_terminator(s, j),
    ensures
        i == j,
{
}

/// The namespace a PHP file declares.
pub fn php_namespace(content: &str) -> (r: Option<String>)
    ensures
        match r {
            Some(n) => namespace_spec(content@) == Some(n@),
            None => namespace_spec(content@) is None,
        },
{
    let cs = chars_of(content);
    let needle = chars_of("namespace ");
    let mut i: usize = 0;
    let mut found = false;
    while i < cs.len()
        invariant_except_break
            !found,
        invariant
            i <= cs@.len(),
            cs@ == content@,
            needle@ == "namespace "@,
            forall|j: int| 0 <= j < i ==> !occurs_at(cs@, needle@, j),
        ensures
            i <= cs@.len(),
            forall|j: int| 0 <= j < i ==> !occurs_at(cs@, needle@, j),
            found ==> occurs_at(cs@, needle@, i as int),
            !found ==> i == cs@.len(),
        decreases cs@.len() - i,
    {
        if crate::text::matches_at(&cs, &needle, i) {
            found = true;
            break;
        }
        i = i + 1;
    }
    if !found {
        proof {
            assert forall|j: int| !first_occurrence(cs@, needle@, j) by {
                if first_occurrence(cs@, needle@, j) {
                    reveal_strlit("namespace ");
                    assert(j < i);
                }
            }
        }
        return None;
    }
    assert(first_occurrence(cs@, needle@, i as int));
    let total = cs.len();
    assert(i + needle@.len() <= total);
    let start = i + needle.len();
    let ghost rest = cs@.subrange(start as int, cs@.len() as int);
    let mut e: usize = start;
    while e < cs.len() && cs[e] != ';' && cs[e] != '{'
        invariant
            start <= e <= cs@.len(),
            forall|j: int| start <= j < e ==> cs@[j] != ';' && cs@[j] != '{',
        decreases cs@.len() - e,
    {
        e = e + 1;
    }
    proof {
        let k = choose|k: int| first_occurrence(content@, "namespace "@, k);
        lemma_first_occurrence_unique(content@, "namespace "@, k, i as int);
    }
    if e == cs.len() {
        proof {
            assert forall|t: int| !first_terminator(rest, t) by {
                if first_terminator(rest, t) {
                    assert(rest[t] == cs@[start + t]);
                }
            }
        }
        return None;
    }
    proof {
        assert(first_terminator(rest, e - start)) by {
            assert forall|j: int| 0 <= j < e - start implies rest[j] != ';' && rest[j] != '{' by {
                assert(rest[j] == cs@[start + j]);
            }
        }
        let t = choose|t: int| first_terminator(rest, t);
        lemma_first_terminator_unique(rest, t, (e - start) as int);
    }
    let raw = string_of_range(&cs, start, e);
    assert(raw@ == rest.subrange(0, (e - start) as int));
    let name = crate::text::trim(raw.as_str());
    if name.as_str().is_empty() {
        return None;
    }
    Some(name)
}

/// The maximal runs of name characters in `s`, and the run still open at its end.
pub open spec fn runs_acc(s: Seq<char>) -> (Seq<Seq<char>>, Seq<char>)
    decreases s.len(),
{
    if s.len() == 0 {
        (Seq::empty(), Seq::empty())
    } else {
        let (words, current) = runs_acc(s.drop_last());
        if is_symbol_char(s.last()) {
            (words, current.push(s.last()))
        } else if current.len() > 0 {
            (words.push(current), Seq::empty())
        } else {
            (words, Seq::empty())
        }
    }
}

/// What reading words has found so far: the previous word, the word before the pending
/// keyword, the pending keyword, and the classes.
pub struct SymbolScan {
    pub previous: Seq<char>,
    pub before_keyword: Seq<char>,
    pub pending: Option<Seq<char>>,
    pub symbols: Seq<Seq<char>>,
}

/// Reads one word: a word after a type keyword names a class, unless the keyword is
/// `class` right after `new` (an anonymous class).
pub open spec fn scan_word(state: SymbolScan, word: Seq<char>, namespace: Option<Seq<char>>) -> SymbolScan {
    let after = match state.pending {
        Some(keyword) => if keyword != "class"@ || state.before_keyword != "new"@ {
            SymbolScan {
                pending: None,
                symbols: state.symbols.push(qualified_spec(namespace, word)),
                ..state
            }
        } else if is_type_keyword(word) {
            SymbolScan { pending: Some(word), before_keyword: state.previous, ..state }
        } else {
            SymbolScan { pending: None, ..state }
        },
        None => if is_type_keyword(word) {
            SymbolScan { pending: Some(word), before_keyword: state.previous, ..state }
        } else {
            state
        },
    };
    SymbolScan { previous: word, ..after }
}

/// Reads the words in order.
pub open spec fn scan_words(words: Seq<Seq<char>>, namespace: Option<Seq<char>>) -> SymbolScan
    decreases words.len(),
{
    if words.len() == 0 {
        SymbolScan { previous: Seq::empty(), before_keyword: Seq::empty(), pending: None, symbols: Seq::empty() }
    } else {
        scan_word(scan_words(words.drop_last(), namespace), words.last(), namespace)
    }
}

/// The words of `s`: its maximal runs of name characters.
pub open spec fn php_words(s: Seq<char>) -> Seq<Seq<char>> {
    let (words, current) = runs_acc(s);
    if current.len() > 0 {
        words.push(current)
    } else {
        words
    }
}

/// The classes, interfaces, traits and enums a PHP file declares, in its namespace.
pub open spec fn symbols_spec(content: Seq<char>) -> Seq<Seq<char>> {
    scan_words(php_words(content), namespace_spec(content)).symbols
}

/// The executable counterpart of `SymbolScan`.
struct ScanState {
    previous: String,
    before_keyword: String,
    pending: Option<String>,
    symbols: Vec<String>,
}

impl ScanState {
    spec fn scan(&self) -> SymbolScan {
        SymbolScan {
            previous: self.previous@,
            before_keyword: self.before_keyword@,
            pending: opt_view(self.pending),
            symbols: views(self.symbols@),
        }
    }
}

fn namespace_str(namespace: &Option<String>) -> (r: Option<&str>)
    ensures
        match r {
            Some(n) => Some(n@) == opt_view(*namespace),
            None => namespace is None,
        },
{
    match namespace {
        Some(n) => Some(n.as_str()),
        None => None,
    }
}

/// Reads one word into the scan.
fn scan_next(state: &mut ScanState, word: String, namespace: &Option<String>)
    ensures
        final(state).scan() == scan_word(old(state).scan(), word@, opt_view(*namespace)),
{
    let keyword_word = is_php_type_keyword(word.as_str());
    let has_pending = state.pending.is_some();
    let pending_is_class = match &state.pending {
        Some(keyword) => str_eq(keyword.as_str(), "class"),
        None => false,
    };
    let after_new = str_eq(state.before_keyword.as_str(), "new");
    if has_pending {
        if !pending_is_class || !after_new {
            let name = qualified_class_name(namespace_str(namespace), word.as_str());
            let ghost before = state.symbols@;
            state.symbols.push(name);
            proof {
                assert(views(state.symbols@) =~= views(before).push(name@));
            }
            state.pending = None;
        } else if keyword_word {
            state.pending = Some(word.clone());
            state.before_keyword = state.previous.clone();
        } else {
            state.pending = None;
        }
    } else if keyword_word {
        state.pending = Some(word.clone());
        state.before_keyword = state.previous.clone();
    }
    state.previous = word;
}

proof fn lemma_scan_push(words: Seq<Seq<char>>, word: Seq<char>, namespace: Option<Seq<char>>)
    ensures
        scan_words(words.push(word), namespace) == scan_word(scan_words(words, namespace), word, namespace),
{
    assert(words.push(word).drop_last() =~= words);
}

/// The classes, interfaces, traits and enums a PHP file declares, each qualified by
/// the file's namespace, in the order they appear.
pub fn php_symbols(content: &str) -> (r: Vec<String>)
    ensures
        views(r@) == symbols_spec(content@),
{
    let namespace = php_namespace(content);
    let ghost ns = namespace_spec(content@);
    assert(opt_view(namespace) == ns);
    let cs = chars_of(content);
    let mut state = ScanState {
        previous: String::new(),
        before_keyword: String::new(),
        pending: None,
        symbols: Vec::new(),
    };
    proof {
        assert(views(state.symbols@) =~= Seq::<Seq<char>>::empty());
        assert(cs@.subrange(0, 0) =~= Seq::<char>::empty());
    }
    let mut current: Vec<char> = Vec::new();
    let mut i: usize = 0;
    while i < cs.len()
        invariant
            i <= cs@.len(),
            cs@ == content@,
            opt_view(namespace) == ns,
            ns == namespace_spec(content@),
            state.scan() == scan_words(runs_acc(cs@.subrange(0, i as int)).0, ns),
            current@ == runs_acc(cs@.subrange(0, i as int)).1,
        decreases cs@.len() - i,
    {
        let c = cs[i];
        let ghost prefix = cs@.subrange(0, i + 1);
        proof {
            assert(prefix.drop_last() =~= cs@.subrange(0, i as int));
            assert(prefix.last() == c);
        }
        if is_php_symbol_character(c) {
            current.push(c);
        } else if current.len() > 0 {
            let word = string_of(&current);
            proof {
                lemma_scan_push(runs_acc(cs@.subrange(0, i as int)).0, current@, ns);
            }
            scan_next(&mut state, word, &namespace);
            current = Vec::new();
            assert(current@ =~= Seq::<char>::empty());
        }
        i = i + 1;
    }
    proof {
        assert(cs@.subrange(0, cs@.len() as int) =~= content@);
    }
    if current.len() > 0 {
        let word = string_of(&current);
        proof {
            lemma_scan_push(runs_acc(content@).0, current@, ns);
        }
        scan_next(&mut state, word, &namespace);
    }
    state.symbols
}

// ---------------------------------------------------------------------------
// The order package files are loaded in
// ---------------------------------------------------------------------------

/// The names of the packages, in lockfile order.
pub open spec fn package_names(packages: Seq<LockedPackage>) -> Seq<Seq<char>> {
    packages.map_values(|p: LockedPackage| p.name@)
}

/// The entry the lockfile holds for `name`: the last one of that name.
pub open spec fn entry_for(packages: Seq<LockedPackage>, name: Seq<char>) -> Option<int>
    decreases packages.len(),
{
    if packages.len() == 0 {
        None
    } else if packages.last().name@ == name {
        Some(packages.len() - 1)
    } else {
        entry_for(packages.drop_last(), name)
    }
}

/// The names a package requires that the lockfile holds, sorted by name.
pub open spec fn dependency_names(packages: Seq<LockedPackage>, name: Seq<char>) -> Seq<Seq<char>> {
    match entry_for(packages, name) {
        Some(i) => packages[i].package_requires@.map_values(|r: RequiredPackage| r.name@).filter(
            |n: Seq<char>| entry_for(packages, n) is Some,
        ).sort_by(text_order()),
        None => Seq::empty(),
    }
}

/// Visits `name` depth first: unless it was visited, its dependencies in name order,
/// then the package itself. The state holds the names visited and the order so far;
/// `fuel` bounds the depth (the number of packages suffices).
pub open spec fn visit_spec(
    packages: Seq<LockedPackage>,
    name: Seq<char>,
    state: (Set<Seq<char>>, Seq<Seq<char>>),
    fuel: nat,
) -> (Set<Seq<char>>, Seq<Seq<char>>)
    decreases fuel, 0int, 0int,
{
    if state.0.contains(name) || fuel == 0 {
        state
    } else {
        let inner = visit_all_spec(
            packages,
            dependency_names(packages, name),
            (state.0.insert(name), state.1),
            (fuel - 1) as nat,
        );
        (inner.0, inner.1.push(name))
    }
}

/// Visits each of `names` in turn.
pub open spec fn visit_all_spec(
    packages: Seq<LockedPackage>,
    names: Seq<Seq<char>>,
    state: (Set<Seq<char>>, Seq<Seq<char>>),
    fuel: nat,
) -> (Set<Seq<char>>, Seq<Seq<char>>)
    decreases fuel, 1int, names.len(),
{
    if names.len() == 0 {
        state
    } else {
        visit_spec(packages, names.last(), visit_all_spec(packages, names.drop_last(), state, fuel), fuel)
    }
}

/// The order the package files are loaded in: every package after the packages it
/// requires (but for cycles), starting from the packages in name order.
pub open spec fn file_order_spec(packages: Seq<LockedPackage>) -> Seq<Seq<char>> {
    visit_all_spec(
        packages,
        package_names(packages).sort_by(text_order()),
        (Set::empty(), Seq::empty()),
        packages.len(),
    ).1
}

/// The names the lockfile holds.
pub open spec fn node_set(packages: Seq<LockedPackage>) -> Set<Seq<char>> {
    package_names(packages).to_set()
}

/// How many of the lockfile's names are not yet visited.
pub open spec fn unvisited(packages: Seq<LockedPackage>, visited: Set<Seq<char>>) -> nat {
    node_set(packages).difference(visited).len()
}

proof fn lemma_entry_for(packages: Seq<LockedPackage>, name: Seq<char>)
    ensures
        match entry_for(packages, name) {
            Some(i) => 0 <= i < packages.len() && packages[i].name@ == name && forall|j: int|
                i < j < packages.len() ==> packages[j].name@ != name,
            None => forall|j: int| 0 <= j < packages.len() ==> packages[j].name@ != name,
        },
    decreases packages.len(),
{
    if packages.len() > 0 {
        lemma_entry_for(packages.drop_last(), name);
        if packages.last().name@ != name {
            assert forall|j: int| 0 <= j < packages.len() - 1 implies packages[j].name@
                == packages.drop_last()[j].name@ by {}
        }
    }
}

proof fn lemma_entry_for_take(packages: Seq<LockedPackage>, name: Seq<char>, i: int)
    requires
        0 <= i <= packages.len(),
        forall|j: int| i <= j < packages.len() ==> packages[j].name@ != name,
    ensures
        entry_for(packages, name) == entry_for(packages.take(i), name),
    decreases packages.len() - i,
{
    if i == packages.len() {
        assert(packages.take(i) =~= packages);
    } else {
        let d = packages.drop_last();
        assert(d.take(i) =~= packages.take(i));
        assert forall|j: int| i <= j < d.len() implies d[j].name@ != name by {
            assert(d[j] == packages[j]);
        }
        lemma_entry_for_take(d, name, i);
    }
}

proof fn lemma_in_node_set(packages: Seq<LockedPackage>, name: Seq<char>)
    ensures
        node_set(packages).contains(name) <==> entry_for(packages, name) is Some,
{
    lemma_entry_for(packages, name);
    let names = package_names(packages);
    if entry_for(packages, name) is Some {
        let i = entry_for(packages, name)->0;
        assert(names[i] == name);
    }
    if node_set(packages).contains(name) {
        let i = names.index_of(name);
        assert(names.contains(name));
        assert(packages[i].name@ == names[i]);
    }
}

proof fn lemma_unvisited_insert(packages: Seq<LockedPackage>, visited: Set<Seq<char>>, name: Seq<char>)
    requires
        node_set(packages).contains(name),
        !visited.contains(name),
    ensures
        unvisited(packages, visited) >= 1,
        unvisited(packages, visited.insert(name)) == unvisited(packages, visited) - 1,
{
    let all = node_set(packages);
    vstd::seq_lib::seq_to_set_is_finite(package_names(packages));
    let before = all.difference(visited);
    vstd::set_lib::lemma_len_subset(before, all);
    assert(all.difference(visited.insert(name)) =~= before.remove(name));
    assert(before.contains(name));
}

proof fn lemma_unvisited_subset(packages: Seq<LockedPackage>, small: Set<Seq<char>>, big: Set<Seq<char>>)
    requires
        small.subset_of(big),
    ensures
        unvisited(packages, big) <= unvisited(packages, small),
{
    let all = node_set(packages);
    vstd::seq_lib::seq_to_set_is_finite(package_names(packages));
    vstd::set_lib::lemma_len_subset(all.difference(small), all);
    vstd::set_lib::lemma_len_subset(all.difference(big), all.difference(small));
}

proof fn lemma_unvisited_bound(packages: Seq<LockedPackage>, visited: Set<Seq<char>>)
    ensures
        unvisited(packages, visited) <= packages.len(),
{
    let all = node_set(packages);
    vstd::seq_lib::seq_to_set_is_finite(package_names(packages));
    vstd::set_lib::lemma_len_subset(all.difference(visited), all);
    package_names(packages).lemma_cardinality_of_set();
}

/// The names behind a list of positions in the lockfile.
pub open spec fn order_names(packages: Seq<LockedPackage>, ordered: Seq<usize>) -> Seq<Seq<char>> {
    ordered.map_values(|i: usize| packages[i as int].name@)
}

/// Each position is the entry the lockfile holds for its name.
pub open spec fn entries_only(packages: Seq<LockedPackage>, ordered: Seq<usize>) -> bool {
    forall|k: int|
        0 <= k < ordered.len() ==> entry_for(packages, #[trigger] packages[ordered[k] as int].name@)
            == Some(ordered[k] as int)
}

/// Whether `name` is among `items`.
fn contains_text(items: &Vec<String>, name: &str) -> (r: bool)
    ensures
        r == views(items@).contains(name@),
{
    let mut i: usize = 0;
    while i < items.len()
        invariant
            i <= items@.len(),
            forall|j: int| 0 <= j < i ==> views(items@)[j] != name@,
        decreases items@.len() - i,
    {
        if str_eq(items[i].as_str(), name) {
            assert(views(items@)[i as int] == name@);
            return true;
        }
        i = i + 1;
    }
    false
}

/// The position of the entry the lockfile holds for `name`.
fn entry_index(packages: &Vec<LockedPackage>, name: &str) -> (r: Option<usize>)
    ensures
        match r {
            Some(i) => entry_for(packages@, name@) == Some(i as int),
            None => entry_for(packages@, name@) is None,
        },
{
    let mut i: usize = packages.len();
    while i > 0
        invariant
            i <= packages@.len(),
            forall|j: int| i <= j < packages@.len() ==> packages@[j].name@ != name@,
        decreases i,
    {
        if str_eq(packages[i - 1].name.as_str(), name) {
            proof {
                lemma_entry_for_take(packages@, name@, i as int);
                assert(packages@.take(i as int).last() == packages@[i - 1]);
            }
            return Some(i - 1);
        }
        i = i - 1;
    }
    proof {
        lemma_entry_for(packages@, name@);
    }
    None
}

/// The names the package at `index` requires that the lockfile holds, sorted by name.
fn dependency_list(packages: &Vec<LockedPackage>, index: usize, Ghost(name): Ghost<Seq<char>>) -> (r:
    Vec<String>)
    requires
        entry_for(packages@, name) == Some(index as int),
    ensures
        views(r@) == dependency_names(packages@, name),
{
    proof {
        lemma_entry_for(packages@, name);
    }
    let links = &packages[index].package_requires;
    let ghost all = links@.map_values(|r: RequiredPackage| r.name@);
    let ghost keep = |n: Seq<char>| entry_for(packages@, n) is Some;
    let mut held: Vec<String> = Vec::new();
    let mut k: usize = 0;
    while k < links.len()
        invariant
            k <= links@.len(),
            all == links@.map_values(|r: RequiredPackage| r.name@),
            keep == (|n: Seq<char>| entry_for(packages@, n) is Some),
            views(held@) == all.take(k as int).filter(keep),
        decreases links@.len() - k,
    {
        let dependency = links[k].name.as_str();
        proof {
            assert(all.take(k + 1) =~= all.take(k as int).push(dependency@));
            all.take(k as int).lemma_filter_push(dependency@, keep);
        }
        if entry_index(packages, dependency).is_some() {
            let ghost before = held@;
            held.push(crate::text::owned(dependency));
            assert(views(held@) =~= views(before).push(dependency@));
        }
        k = k + 1;
    }
    assert(all.take(links@.len() as int) =~= all);
    sort_texts(&held)
}

/// Visits `name` depth first, as `visit_spec` says, recording the entries it reaches.
fn visit_package(
    packages: &Vec<LockedPackage>,
    name: &str,
    visited: &mut Vec<String>,
    ordered: &mut Vec<usize>,
    Ghost(fuel): Ghost<nat>,
)
    requires
        entry_for(packages@, name@) is Some,
        fuel >= unvisited(packages@, views(old(visited)@).to_set()),
        entries_only(packages@, old(ordered)@),
    ensures
        (views(final(visited)@).to_set(), order_names(packages@, final(ordered)@)) == visit_spec(
            packages@,
            name@,
            (views(old(visited)@).to_set(), order_names(packages@, old(ordered)@)),
            fuel,
        ),
        views(old(visited)@).to_set().subset_of(views(final(visited)@).to_set()),
        entries_only(packages@, final(ordered)@),
    decreases fuel,
{
    let ghost start = views(visited@).to_set();
    let ghost order0 = order_names(packages@, ordered@);
    if contains_text(visited, name) {
        return;
    }
    proof {
        lemma_in_node_set(packages@, name@);
        lemma_unvisited_insert(packages@, start, name@);
    }
    let ghost before = visited@;
    visited.push(crate::text::owned(name));
    proof {
        assert(views(visited@) =~= views(before).push(name@));
        views(before).lemma_push_to_set_commute(name@);
    }
    let index = match entry_index(packages, name) {
        Some(i) => i,
        None => {
            return;
        },
    };
    let dependencies = dependency_list(packages, index, Ghost(name@));
    let ghost deps = views(dependencies@);
    let ghost first = (start.insert(name@), order0);
    let mut k: usize = 0;
    assert(deps.take(0) =~= Seq::<Seq<char>>::empty());
    while k < dependencies.len()
        invariant
            k <= dependencies@.len(),
            deps == views(dependencies@),
            deps == dependency_names(packages@, name@),
            entry_for(packages@, name@) == Some(index as int),
            fuel >= 1,
            unvisited(packages@, first.0) == unvisited(packages@, start) - 1,
            fuel >= unvisited(packages@, start),
            first.0.subset_of(views(visited@).to_set()),
            (views(visited@).to_set(), order_names(packages@, ordered@)) == visit_all_spec(
                packages@,
                deps.take(k as int),
                first,
                (fuel - 1) as nat,
            ),
            entries_only(packages@, ordered@),
        decreases dependencies@.len() - k,
    {
        let ghost current = views(visited@).to_set();
        proof {
            lemma_unvisited_subset(packages@, first.0, current);
            broadcast use vstd::seq_lib::group_to_multiset_ensures;

            let pred = |n: Seq<char>| entry_for(packages@, n) is Some;
            lemma_entry_for(packages@, name@);
            crate::order::lemma_text_le_total_ordering();
            let i = entry_for(packages@, name@)->0;
            let raw = packages@[i].package_requires@.map_values(|r: RequiredPackage| r.name@);
            raw.filter(pred).lemma_sort_by_ensures(text_order());
            assert(deps.contains(deps[k as int]));
            assert(raw.filter(pred).to_multiset().count(deps[k as int]) > 0);
            assert(raw.filter(pred).contains(deps[k as int]));
            let w = choose|w: int| 0 <= w < raw.filter(pred).len() && raw.filter(pred)[w] == deps[k as int];
            raw.lemma_filter_pred(pred, w);
        }
        visit_package(packages, dependencies[k].as_str(), visited, ordered, Ghost((fuel - 1) as nat));
        proof {
            assert(deps.take(k + 1).drop_last() =~= deps.take(k as int));
            assert(deps.take(k + 1).last() == deps[k as int]);
        }
        k = k + 1;
    }
    assert(deps.take(dependencies@.len() as int) =~= deps);
    let ghost inner = order_names(packages@, ordered@);
    ordered.push(index);
    proof {
        lemma_entry_for(packages@, name@);
        assert(order_names(packages@, ordered@) =~= inner.push(name@));
    }
}

/// The packages in the order their files are loaded: each after the packages it
/// requires (but for cycles), starting from the packages in name order. Of two
/// entries with one name, the later one counts.
pub fn package_file_order(lockfile: &Lockfile) -> (r: Vec<&LockedPackage>)
    ensures
        r@.len() == file_order_spec(lockfile.packages@).len(),
        forall|k: int|
            0 <= k < r@.len() ==> #[trigger] entry_for(
                lockfile.packages@,
                file_order_spec(lockfile.packages@)[k],
            ) is Some && *r@[k] == lockfile.packages@[entry_for(
                lockfile.packages@,
                file_order_spec(lockfile.packages@)[k],
            )->0],
{
    let packages = &lockfile.packages;
    let mut names: Vec<String> = Vec::new();
    let mut i: usize = 0;
    while i < packages.len()
        invariant
            i <= packages@.len(),
            views(names@) == package_names(packages@).take(i as int),
        decreases packages@.len() - i,
    {
        let ghost before = names@;
        names.push(crate::text::owned(packages[i].name.as_str()));
        assert(views(names@) =~= views(before).push(packages@[i as int].name@));
        assert(package_names(packages@).take(i + 1) =~= package_names(packages@).take(i as int).push(
            packages@[i as int].name@,
        ));
        i = i + 1;
    }
    assert(package_names(packages@).take(packages@.len() as int) =~= package_names(packages@));
    let roots = sort_texts(&names);
    let ghost all_roots = views(roots@);
    let ghost fuel = packages@.len();
    let mut visited: Vec<String> = Vec::new();
    let mut ordered: Vec<usize> = Vec::new();
    proof {
        assert(views(visited@).to_set() =~= Set::<Seq<char>>::empty());
        assert(order_names(packages@, ordered@) =~= Seq::<Seq<char>>::empty());
        assert(all_roots.take(0) =~= Seq::<Seq<char>>::empty());
    }
    let mut k: usize = 0;
    while k < roots.len()
        invariant
            k <= roots@.len(),
            all_roots == views(roots@),
            all_roots == package_names(packages@).sort_by(text_order()),
            fuel == packages@.len(),
            (views(visited@).to_set(), order_names(packages@, ordered@)) == visit_all_spec(
                packages@,
                all_roots.take(k as int),
                (Set::empty(), Seq::empty()),
                fuel,
            ),
            entries_only(packages@, ordered@),
        decreases roots@.len() - k,
    {
        proof {
            broadcast use vstd::seq_lib::group_to_multiset_ensures;

            crate::order::lemma_text_le_total_ordering();
            package_names(packages@).lemma_sort_by_ensures(text_order());
            assert(all_roots.contains(all_roots[k as int]));
            assert(package_names(packages@).to_multiset().count(all_roots[k as int]) > 0);
            assert(node_set(packages@).contains(all_roots[k as int]));
            lemma_in_node_set(packages@, all_roots[k as int]);
            lemma_unvisited_bound(packages@, views(visited@).to_set());
        }
        visit_package(packages, roots[k].as_str(), &mut visited, &mut ordered, Ghost(fuel));
        proof {
            assert(all_roots.take(k + 1).drop_last() =~= all_roots.take(k as int));
            assert(all_roots.take(k + 1).last() == all_roots[k as int]);
        }
        k = k + 1;
    }
    assert(all_roots.take(roots@.len() as int) =~= all_roots);
    let ghost order = order_names(packages@, ordered@);
    assert(order == file_order_spec(packages@));
    assert forall|t: int| 0 <= t < ordered@.len() implies ordered@[t] < packages@.len() by {
        lemma_entry_for(packages@, packages@[ordered@[t] as int].name@);
    }
    let mut result: Vec<&LockedPackage> = Vec::new();
    let mut j: usize = 0;
    while j < ordered.len()
        invariant
            j <= ordered@.len(),
            order == order_names(packages@, ordered@),
            entries_only(packages@, ordered@),
            forall|t: int| 0 <= t < ordered@.len() ==> ordered@[t] < packages@.len(),
            result@.len() == j,
            forall|t: int| 0 <= t < j ==> *result@[t] == packages@[ordered@[t] as int],
        decreases ordered@.len() - j,
    {
        result.push(&packages[ordered[j]]);
        j = j + 1;
    }
    proof {
        assert forall|t: int| 0 <= t < result@.len() implies #[trigger] entry_for(
            packages@,
            order[t],
        ) is Some && *result@[t] == packages@[entry_for(packages@, order[t])->0] by {
            assert(order[t] == packages@[ordered@[t] as int].name@);
        }
    }
    result
}

// ---------------------------------------------------------------------------
// Paths an autoload section names
// ---------------------------------------------------------------------------

/// The paths an autoload section names: one string, or an array of strings.
pub open spec fn autoload_paths_spec(value: JsonValue, section: Seq<char>) -> Result<
    Seq<Seq<char>>,
    Seq<char>,
> {
    match value {
        JsonValue::Str(path) => Ok(seq![path@]),
        JsonValue::Array(items) => if forall|i: int| 0 <= i < items@.len() ==> #[trigger] items@[i] is Str {
            Ok(items@.map_values(|item: JsonValue| item.str_view()->0))
        } else {
            Err("autoload."@ + section + " path must be a string"@)
        },
        _ => Err("autoload."@ + section + " must be a string or an array of strings"@),
    }
}

/// The paths an autoload section names.
pub fn autoload_paths(value: &JsonValue, section: &str) -> (r: Result<Vec<String>, String>)
    ensures
        match r {
            Ok(paths) => autoload_paths_spec(*value, section@) == Ok::<Seq<Seq<char>>, Seq<char>>(
                views(paths@),
            ),
            Err(message) => autoload_paths_spec(*value, section@) == Err::<Seq<Seq<char>>, Seq<char>>(
                message@,
            ),
        },
{
    match value {
        JsonValue::Str(path) => {
            let mut paths: Vec<String> = Vec::new();
            paths.push(path.clone());
            assert(views(paths@) =~= seq![path@]);
            Ok(paths)
        },
        JsonValue::Array(items) => {
            let ghost expected = items@.map_values(|item: JsonValue| item.str_view()->0);
            let mut paths: Vec<String> = Vec::new();
            let mut i: usize = 0;
            while i < items.len()
                invariant
                    i <= items@.len(),
                    *value == JsonValue::Array(*items),
                    expected == items@.map_values(|item: JsonValue| item.str_view()->0),
                    forall|j: int| 0 <= j < i ==> #[trigger] items@[j] is Str,
                    views(paths@) == expected.take(i as int),
                decreases items@.len() - i,
            {
                match &items[i] {
                    JsonValue::Str(path) => {
                        let ghost before = paths@;
                        paths.push(path.clone());
                        assert(views(paths@) =~= views(before).push(path@));
                        assert(expected.take(i + 1) =~= expected.take(i as int).push(path@));
                    },
                    _ => {
                        return Err(concat3("autoload.", section, " path must be a string"));
                    },
                }
                i = i + 1;
            }
            assert(expected.take(items@.len() as int) =~= expected);
            Ok(paths)
        },
        _ => Err(concat3("autoload.", section, " must be a string or an array of strings")),
    }
}

/// `path` taken from the directory `base`: an absolute path stands as it is, a relative
/// one follows `base` and a `/` (none when `base` is empty or ends in one).
pub open spec fn joined_path(base: Seq<char>, path: Seq<char>) -> Seq<char> {
    if path.len() > 0 && path[0] == '/' {
        path
    } else if base.len() == 0 || base.last() == '/' {
        base + path
    } else {
        base + "/"@ + path
    }
}

/// `path` taken from the directory `base`.
pub fn join_path(base: &str, path: &str) -> (r: String)
    ensures
        r@ == joined_path(base@, path@),
{
    let pc = chars_of(path);
    let bc = chars_of(base);
    if pc.len() > 0 && pc[0] == '/' {
        crate::text::owned(path)
    } else if bc.len() == 0 || bc[bc.len() - 1] == '/' {
        crate::text::concat2(base, path)
    } else {
        concat3(base, "/", path)
    }
}

/// The directory a package is installed in, below the project: `vendor/<vendor>/<package>`.
pub fn vendor_package_dir(package_name: &str) -> (r: Result<String, crate::error::ConcertoError>)
    ensures
        match crate::composer::package_parts(package_name@) {
            Some((vendor, package)) => r matches Ok(dir) && dir@ == "vendor/"@ + vendor + "/"@
                + package,
            None => r matches Err(crate::error::ConcertoError::InvalidPackageName { name }) && name@
                == package_name@,
        },
{
    let (vendor, package) = crate::composer::package_path_parts(package_name)?;
    let prefix = crate::text::concat2("vendor/", vendor.as_str());
    Ok(concat3(prefix.as_str(), "/", package.as_str()))
}

// ---------------------------------------------------------------------------
// Entries kept by key, in key order
// ---------------------------------------------------------------------------

/// The keys of keyed entries.
pub open spec fn entry_keys<V>(entries: Seq<(String, V)>) -> Seq<Seq<char>> {
    entries.map_values(|e: (String, V)| e.0@)
}

/// The value kept under `key`.
pub open spec fn value_under<V>(entries: Seq<(String, V)>, key: Seq<char>) -> Option<V>
    decreases entries.len(),
{
    if entries.len() == 0 {
        None
    } else if entries[0].0@ == key {
        Some(entries[0].1)
    } else {
        value_under(entries.drop_first(), key)
    }
}

proof fn lemma_value_under_at<V>(entries: Seq<(String, V)>, key: Seq<char>, i: int)
    requires
        strictly_sorted(entry_keys(entries)),
        0 <= i < entries.len(),
        entries[i].0@ == key,
    ensures
        value_under(entries, key) == Some(entries[i].1),
    decreases i,
{
    if i > 0 {
        let keys = entry_keys(entries);
        assert(text_lt(keys[0], keys[i]));
        lemma_text_lt_irreflexive(key);
        let rest = entries.drop_first();
        assert(entry_keys(rest) =~= keys.drop_first());
        lemma_value_under_at(rest, key, i - 1);
    }
}

proof fn lemma_value_under_absent<V>(entries: Seq<(String, V)>, key: Seq<char>)
    requires
        forall|j: int| 0 <= j < entries.len() ==> entries[j].0@ != key,
    ensures
        value_under(entries, key) is None,
    decreases entries.len(),
{
    if entries.len() > 0 {
        let rest = entries.drop_first();
        assert forall|j: int| 0 <= j < rest.len() implies rest[j].0@ != key by {
            assert(rest[j] == entries[j + 1]);
        }
        lemma_value_under_absent(rest, key);
    }
}

proof fn lemma_value_under_cases<V>(entries: Seq<(String, V)>, key: Seq<char>)
    requires
        strictly_sorted(entry_keys(entries)),
    ensures
        (exists|j: int| 0 <= j < entries.len() && entries[j].0@ == key) || value_under(entries, key) is None,
        forall|j: int| 0 <= j < entries.len() && entries[j].0@ == key ==> value_under(entries, key) == Some(entries[j].1),
{
    assert forall|j: int| 0 <= j < entries.len() && entries[j].0@ == key implies value_under(entries, key) == Some(entries[j].1) by {
        lemma_value_under_at(entries, key, j);
    }
    if !(exists|j: int| 0 <= j < entries.len() && entries[j].0@ == key) {
        lemma_value_under_absent(entries, key);
    }
}

/// The first position whose key does not sort before `key`.
fn key_position<V>(entries: &Vec<(String, V)>, key: &str) -> (k: usize)
    ensures
        k <= entries@.len(),
        forall|j: int| 0 <= j < k ==> text_lt(#[trigger] entries@[j].0@, key@),
        k < entries@.len() ==> !text_lt(entries@[k as int].0@, key@),
{
    let mut k: usize = 0;
    while k < entries.len() && text_less(entries[k].0.as_str(), key)
        invariant
            k <= entries@.len(),
            forall|j: int| 0 <= j < k ==> text_lt(#[trigger] entries@[j].0@, key@),
        decreases entries@.len() - k,
    {
        k = k + 1;
    }
    k
}

proof fn lemma_insert_keeps_order<V>(entries: Seq<(String, V)>, k: int, entry: (String, V))
    requires
        strictly_sorted(entry_keys(entries)),
        0 <= k <= entries.len(),
        forall|j: int| 0 <= j < k ==> text_lt(#[trigger] entries[j].0@, entry.0@),
        k < entries.len() ==> text_lt(entry.0@, entries[k].0@),
    ensures
        strictly_sorted(entry_keys(entries.insert(k, entry))),
        value_under(entries.insert(k, entry), entry.0@) == Some(entry.1),
        forall|key: Seq<char>| key != entry.0@ ==> #[trigger] value_under(entries.insert(k, entry), key)
            == value_under(entries, key),
{
    let after = entries.insert(k, entry);
    let keys = entry_keys(entries);
    let new_keys = entry_keys(after);
    assert forall|i: int, j: int| 0 <= i < j < new_keys.len() implies text_lt(
        #[trigger] new_keys[i],
        #[trigger] new_keys[j],
    ) by {
        if j < k {
            assert(new_keys[i] == keys[i] && new_keys[j] == keys[j]);
        } else if j == k {
            assert(new_keys[i] == keys[i]);
        } else if i == k {
            assert(new_keys[j] == keys[j - 1]);
            if j - 1 > k {
                assert(text_lt(keys[k], keys[j - 1]));
                lemma_text_lt_transitive(entry.0@, keys[k], keys[j - 1]);
            }
        } else if i < k {
            assert(new_keys[i] == keys[i] && new_keys[j] == keys[j - 1]);
            if j - 1 > k {
                assert(text_lt(keys[k], keys[j - 1]));
                lemma_text_lt_transitive(entry.0@, keys[k], keys[j - 1]);
            }
            lemma_text_lt_transitive(keys[i], entry.0@, keys[j - 1]);
        } else {
            assert(new_keys[i] == keys[i - 1] && new_keys[j] == keys[j - 1]);
        }
    }
    assert(after[k] == entry);
    lemma_value_under_at(after, entry.0@, k);
    assert forall|key: Seq<char>| key != entry.0@ implies #[trigger] value_under(after, key)
        == value_under(entries, key) by {
        lemma_value_under_cases(entries, key);
        lemma_value_under_cases(after, key);
        if exists|j: int| 0 <= j < entries.len() && entries[j].0@ == key {
            let j = choose|j: int| 0 <= j < entries.len() && entries[j].0@ == key;
            if j < k {
                assert(after[j] == entries[j]);
            } else {
                assert(after[j + 1] == entries[j]);
            }
        } else {
            assert forall|j: int| 0 <= j < after.len() implies after[j].0@ != key by {
                if j < k {
                    assert(after[j] == entries[j]);
                } else if j > k {
                    assert(after[j] == entries[j - 1]);
                }
            }
            lemma_value_under_absent(after, key);
        }
    }
}

proof fn lemma_update_keeps_order<V>(entries: Seq<(String, V)>, k: int, entry: (String, V))
    requires
        strictly_sorted(entry_keys(entries)),
        0 <= k < entries.len(),
        entries[k].0@ == entry.0@,
    ensures
        strictly_sorted(entry_keys(entries.update(k, entry))),
        value_under(entries.update(k, entry), entry.0@) == Some(entry.1),
        forall|key: Seq<char>| key != entry.0@ ==> #[trigger] value_under(entries.update(k, entry), key)
            == value_under(entries, key),
{
    let after = entries.update(k, entry);
    assert(entry_keys(after) =~= entry_keys(entries));
    lemma_value_under_at(after, entry.0@, k);
    assert forall|key: Seq<char>| key != entry.0@ implies #[trigger] value_under(after, key)
        == value_under(entries, key) by {
        lemma_value_under_cases(entries, key);
        lemma_value_under_cases(after, key);
        if exists|j: int| 0 <= j < entries.len() && entries[j].0@ == key {
            let j = choose|j: int| 0 <= j < entries.len() && entries[j].0@ == key;
            assert(after[j] == entries[j]);
        } else {
            assert forall|j: int| 0 <= j < after.len() implies after[j].0@ != key by {
                if j != k {
                    assert(after[j] == entries[j]);
                }
            }
            lemma_value_under_absent(after, key);
        }
    }
}

/// The paths kept under `key`; none when the key is missing.
pub open spec fn paths_under(entries: Seq<(String, Vec<String>)>, key: Seq<char>) -> Seq<Seq<char>> {
    match value_under(entries, key) {
        Some(paths) => views(paths@),
        None => Seq::empty(),
    }
}

/// Adds `path` to the paths kept under `namespace`, creating the entry when missing.
pub fn add_namespace_path(mappings: &mut Vec<(String, Vec<String>)>, namespace: &str, path: String)
    requires
        strictly_sorted(entry_keys(old(mappings)@)),
    ensures
        strictly_sorted(entry_keys(final(mappings)@)),
        value_under(final(mappings)@, namespace@) is Some,
        paths_under(final(mappings)@, namespace@) == paths_under(old(mappings)@, namespace@).push(path@),
        forall|key: Seq<char>| key != namespace@ ==> #[trigger] value_under(final(mappings)@, key)
            == value_under(old(mappings)@, key),
{
    let ghost before = mappings@;
    let k = key_position(mappings, namespace);
    if k < mappings.len() && str_eq(mappings[k].0.as_str(), namespace) {
        proof {
            lemma_value_under_at(before, namespace@, k as int);
        }
        let (key, mut paths) = mappings.remove(k);
        assert(key@ == namespace@);
        let ghost old_paths = views(paths@);
        paths.push(path);
        assert(views(paths@) =~= old_paths.push(path@));
        let ghost entry = (key, paths);
        mappings.insert(k, (key, paths));
        proof {
            assert(mappings@ =~= before.update(k as int, entry));
            lemma_update_keeps_order(before, k as int, entry);
        }
    } else {
        proof {
            if k < before.len() {
                lemma_text_lt_connected(before[k as int].0@, namespace@);
            }
            assert forall|j: int| 0 <= j < before.len() implies before[j].0@ != namespace@ by {
                if j < k {
                    lemma_text_lt_irreflexive(namespace@);
                } else if j > k {
                    assert(text_lt(entry_keys(before)[k as int], entry_keys(before)[j]));
                    lemma_text_lt_transitive(namespace@, before[k as int].0@, before[j].0@);
                    lemma_text_lt_irreflexive(namespace@);
                }
            }
            lemma_value_under_absent(before, namespace@);
        }
        let mut paths: Vec<String> = Vec::new();
        paths.push(path);
        assert(views(paths@) =~= Seq::<Seq<char>>::empty().push(path@));
        let entry = (crate::text::owned(namespace), paths);
        let ghost g = entry;
        mappings.insert(k, entry);
        proof {
            lemma_insert_keeps_order(before, k as int, g);
        }
    }
}

/// Keeps `file` under `class`, in place of any file kept there before.
pub fn add_class(classmap: &mut Vec<(String, String)>, class: String, file: String)
    requires
        strictly_sorted(entry_keys(old(classmap)@)),
    ensures
        strictly_sorted(entry_keys(final(classmap)@)),
        value_under(final(classmap)@, class@) matches Some(f) && f@ == file@,
        forall|key: Seq<char>| key != class@ ==> #[trigger] value_under(final(classmap)@, key)
            == value_under(old(classmap)@, key),
{
    let ghost before = classmap@;
    let k = key_position(classmap, class.as_str());
    if k < classmap.len() && str_eq(classmap[k].0.as_str(), class.as_str()) {
        let ghost entry = (class, file);
        classmap.set(k, (class, file));
        proof {
            assert(classmap@ =~= before.update(k as int, entry));
            lemma_update_keeps_order(before, k as int, entry);
        }
    } else {
        proof {
            if k < before.len() {
                lemma_text_lt_connected(before[k as int].0@, class@);
            }
        }
        let ghost entry = (class, file);
        classmap.insert(k, (class, file));
        proof {
            lemma_insert_keeps_order(before, k as int, entry);
        }
    }
}

// ---------------------------------------------------------------------------
// The autoload map
// ---------------------------------------------------------------------------

/// What the autoloader is told: namespace prefixes with their directories (`psr-4`,
/// `psr-0`), classes with their files, and files loaded up front. Prefixes and classes
/// are kept in key order, each once.
pub struct AutoloadMap {
    pub psr4: Vec<(String, Vec<String>)>,
    pub psr0: Vec<(String, Vec<String>)>,
    pub classmap: Vec<(String, String)>,
    pub files: Vec<String>,
}

impl AutoloadMap {
    /// Keys in order, each once.
    pub open spec fn well_formed(&self) -> bool {
        &&& strictly_sorted(entry_keys(self.psr4@))
        &&& strictly_sorted(entry_keys(self.psr0@))
        &&& strictly_sorted(entry_keys(self.classmap@))
    }

    /// An empty map.
    pub fn new() -> (r: Self)
        ensures
            r.well_formed(),
            r.psr4@.len() == 0,
            r.psr0@.len() == 0,
            r.classmap@.len() == 0,
            r.files@.len() == 0,
    {
        AutoloadMap { psr4: Vec::new(), psr0: Vec::new(), classmap: Vec::new(), files: Vec::new() }
    }
}

/// The paths added under `key`, in order.
pub open spec fn added_for(additions: Seq<(Seq<char>, Seq<char>)>, key: Seq<char>) -> Seq<Seq<char>> {
    additions.filter(|a: (Seq<char>, Seq<char>)| a.0 == key).map_values(
        |a: (Seq<char>, Seq<char>)| a.1,
    )
}

/// The (prefix, path) pairs the members of a `psr-4` or `psr-0` object add, in order, or
/// the first error.
pub open spec fn namespace_additions(
    entries: Seq<(String, JsonValue)>,
    section: Seq<char>,
    dir: Seq<char>,
) -> Result<Seq<(Seq<char>, Seq<char>)>, Seq<char>>
    decreases entries.len(),
{
    if entries.len() == 0 {
        Ok(Seq::empty())
    } else {
        match namespace_additions(entries.drop_last(), section, dir) {
            Err(e) => Err(e),
            Ok(before) => match autoload_paths_spec(entries.last().1, section) {
                Err(e) => Err(e),
                Ok(paths) => Ok(
                    before + paths.map_values(
                        |p: Seq<char>| (entries.last().0@, joined_path(dir, p)),
                    ),
                ),
            },
        }
    }
}

/// What the section `section` of an autoload object adds: nothing unless it is an object.
pub open spec fn section_additions(autoload: JsonValue, section: Seq<char>, dir: Seq<char>) -> Result<
    Seq<(Seq<char>, Seq<char>)>,
    Seq<char>,
> {
    match autoload.field(section) {
        Some(JsonValue::Object(entries)) => namespace_additions(entries@, section, dir),
        _ => Ok(Seq::empty()),
    }
}

/// The paths a `files` or `classmap` section names, taken from `dir`; none when missing.
pub open spec fn listed_paths(autoload: JsonValue, section: Seq<char>, dir: Seq<char>) -> Result<
    Seq<Seq<char>>,
    Seq<char>,
> {
    match autoload.field(section) {
        Some(value) => match autoload_paths_spec(value, section) {
            Ok(paths) => Ok(paths.map_values(|p: Seq<char>| joined_path(dir, p))),
            Err(e) => Err(e),
        },
        None => Ok(Seq::empty()),
    }
}

/// `map` after adding each (prefix, path) pair in turn.
pub open spec fn extends_paths(
    after: Seq<(String, Vec<String>)>,
    before: Seq<(String, Vec<String>)>,
    additions: Seq<(Seq<char>, Seq<char>)>,
) -> bool {
    &&& strictly_sorted(entry_keys(after))
    &&& forall|key: Seq<char>|
        #[trigger] paths_under(after, key) == paths_under(before, key) + added_for(additions, key)
    &&& forall|key: Seq<char>|
        (#[trigger] value_under(after, key) is None) <==> (value_under(before, key) is None
            && added_for(additions, key).len() == 0)
}

/// The (prefix, path) pairs of a `psr-4` or `psr-0` object, paths taken from `dir`.
fn namespace_pairs(entries: &Vec<(String, JsonValue)>, section: &str, dir: &str) -> (r: Result<
    Vec<(String, String)>,
    String,
>)
    ensures
        match r {
            Ok(pairs) => namespace_additions(entries@, section@, dir@) == Ok::<
                Seq<(Seq<char>, Seq<char>)>,
                Seq<char>,
            >(pairs@.map_values(|p: (String, String)| (p.0@, p.1@))),
            Err(e) => namespace_additions(entries@, section@, dir@) == Err::<
                Seq<(Seq<char>, Seq<char>)>,
                Seq<char>,
            >(e@),
        },
{
    let mut pairs: Vec<(String, String)> = Vec::new();
    let mut i: usize = 0;
    assert(entries@.take(0) =~= Seq::<(String, JsonValue)>::empty());
    assert(pairs@.map_values(|p: (String, String)| (p.0@, p.1@)) =~= Seq::<(Seq<char>, Seq<char>)>::empty());
    while i < entries.len()
        invariant
            i <= entries@.len(),
            namespace_additions(entries@.take(i as int), section@, dir@) == Ok::<
                Seq<(Seq<char>, Seq<char>)>,
                Seq<char>,
            >(pairs@.map_values(|p: (String, String)| (p.0@, p.1@))),
        decreases entries@.len() - i,
    {
        let ghost prefix = entries@.take(i + 1);
        assert(prefix.drop_last() =~= entries@.take(i as int));
        assert(prefix.last() == entries@[i as int]);
        let namespace = &entries[i].0;
        match autoload_paths(&entries[i].1, section) {
            Err(e) => {
                proof {
                    lemma_additions_error_stays(entries@, section@, dir@, i + 1);
                }
                return Err(e);
            },
            Ok(paths) => {
                let ghost before = pairs@.map_values(|p: (String, String)| (p.0@, p.1@));
                let mut j: usize = 0;
                while j < paths.len()
                    invariant
                        j <= paths@.len(),
                        pairs@.map_values(|p: (String, String)| (p.0@, p.1@)) == before + views(
                            paths@,
                        ).take(j as int).map_values(|p: Seq<char>| (namespace@, joined_path(dir@, p))),
                    decreases paths@.len() - j,
                {
                    let ghost prev = pairs@;
                    let joined = join_path(dir, paths[j].as_str());
                    pairs.push((crate::text::owned(namespace.as_str()), joined));
                    proof {
                        assert(views(paths@).take(j + 1) =~= views(paths@).take(j as int).push(
                            paths@[j as int]@,
                        ));
                        assert(pairs@.map_values(|p: (String, String)| (p.0@, p.1@)) =~= prev.map_values(
                            |p: (String, String)| (p.0@, p.1@),
                        ).push((namespace@, joined_path(dir@, paths@[j as int]@))));
                        assert(views(paths@).take(j + 1).map_values(
                            |p: Seq<char>| (namespace@, joined_path(dir@, p)),
                        ) =~= views(paths@).take(j as int).map_values(
                            |p: Seq<char>| (namespace@, joined_path(dir@, p)),
                        ).push((namespace@, joined_path(dir@, paths@[j as int]@))));
                    }
                    j = j + 1;
                }
                assert(views(paths@).take(paths@.len() as int) =~= views(paths@));
            },
        }
        i = i + 1;
    }
    assert(entries@.take(entries@.len() as int) =~= entries@);
    Ok(pairs)
}

proof fn lemma_additions_error_stays(
    entries: Seq<(String, JsonValue)>,
    section: Seq<char>,
    dir: Seq<char>,
    n: int,
)
    requires
        0 <= n <= entries.len(),
        namespace_additions(entries.take(n), section, dir) is Err,
    ensures
        namespace_additions(entries, section, dir) == namespace_additions(entries.take(n), section, dir),
    decreases entries.len() - n,
{
    if n < entries.len() {
        let longer = entries.take(n + 1);
        assert(longer.drop_last() =~= entries.take(n));
        lemma_additions_error_stays(entries, section, dir, n + 1);
    } else {
        assert(entries.take(n) =~= entries);
    }
}

/// The (prefix, path) pairs as text.
pub open spec fn pair_views(pairs: Seq<(String, String)>) -> Seq<(Seq<char>, Seq<char>)> {
    pairs.map_values(|p: (String, String)| (p.0@, p.1@))
}

/// Adds each (prefix, path) pair in turn.
fn add_namespace_paths(mappings: &mut Vec<(String, Vec<String>)>, pairs: Vec<(String, String)>)
    requires
        strictly_sorted(entry_keys(old(mappings)@)),
    ensures
        extends_paths(final(mappings)@, old(mappings)@, pair_views(pairs@)),
{
    let ghost start = mappings@;
    let ghost all = pair_views(pairs@);
    let mut i: usize = 0;
    proof {
        assert forall|key: Seq<char>| #[trigger] added_for(all.take(0), key).len() == 0 by {
            assert(all.take(0) =~= Seq::<(Seq<char>, Seq<char>)>::empty());
            assert(added_for(all.take(0), key) =~= Seq::<Seq<char>>::empty());
        }
        assert forall|key: Seq<char>| #[trigger] paths_under(mappings@, key) == paths_under(start, key)
            + added_for(all.take(0), key) by {
            assert(paths_under(start, key) + added_for(all.take(0), key) =~= paths_under(start, key));
        }
    }
    while i < pairs.len()
        invariant
            i <= pairs@.len(),
            all == pair_views(pairs@),
            extends_paths(mappings@, start, all.take(i as int)),
        decreases pairs@.len() - i,
    {
        let ghost before = mappings@;
        let ghost pair = all[i as int];
        add_namespace_path(mappings, pairs[i].0.as_str(), crate::text::owned(pairs[i].1.as_str()));
        proof {
            let longer = all.take(i + 1);
            assert(longer =~= all.take(i as int).push(pair));
            assert forall|key: Seq<char>| #[trigger] added_for(longer, key) == if pair.0 == key {
                added_for(all.take(i as int), key).push(pair.1)
            } else {
                added_for(all.take(i as int), key)
            } by {
                let pred = |a: (Seq<char>, Seq<char>)| a.0 == key;
                all.take(i as int).lemma_filter_push(pair, pred);
                let f = |a: (Seq<char>, Seq<char>)| a.1;
                if pair.0 == key {
                    assert(all.take(i as int).filter(pred).push(pair).map_values(f) =~= all.take(
                        i as int,
                    ).filter(pred).map_values(f).push(pair.1));
                }
            }
            assert forall|key: Seq<char>| #[trigger] paths_under(mappings@, key) == paths_under(start, key)
                + added_for(longer, key) by {
                assert(paths_under(before, key) == paths_under(start, key) + added_for(
                    all.take(i as int),
                    key,
                ));
                assert(added_for(longer, key) == added_for(longer, key));
                if pair.0 != key {
                    assert(value_under(mappings@, key) == value_under(before, key));
                }
                if pair.0 == key {
                    assert(paths_under(start, key) + added_for(all.take(i as int), key).push(pair.1)
                        =~= (paths_under(start, key) + added_for(all.take(i as int), key)).push(pair.1));
                }
            }
            assert forall|key: Seq<char>| (#[trigger] value_under(mappings@, key) is None) <==> (
            value_under(start, key) is None && added_for(longer, key).len() == 0) by {
                if pair.0 == key {
                    assert(added_for(longer, key).len() > 0);
                }
            }
        }
        i = i + 1;
    }
    assert(all.take(pairs@.len() as int) =~= all);
}

/// The (prefix, path) pairs a `psr-4` or `psr-0` section adds.
fn section_pairs(autoload: &JsonValue, section: &str, dir: &str) -> (r: Result<Vec<(String, String)>, String>)
    ensures
        match r {
            Ok(pairs) => section_additions(*autoload, section@, dir@) == Ok::<
                Seq<(Seq<char>, Seq<char>)>,
                Seq<char>,
            >(pair_views(pairs@)),
            Err(e) => section_additions(*autoload, section@, dir@) == Err::<
                Seq<(Seq<char>, Seq<char>)>,
                Seq<char>,
            >(e@),
        },
{
    match autoload.get(section) {
        Some(value) => match value.as_object() {
            Some(entries) => namespace_pairs(entries, section, dir),
            None => {
                let empty: Vec<(String, String)> = Vec::new();
                assert(pair_views(empty@) =~= Seq::<(Seq<char>, Seq<char>)>::empty());
                Ok(empty)
            },
        },
        None => {
            let empty: Vec<(String, String)> = Vec::new();
            assert(pair_views(empty@) =~= Seq::<(Seq<char>, Seq<char>)>::empty());
            Ok(empty)
        },
    }
}

/// The paths a `files` or `classmap` section names, taken from `dir`.
fn section_paths(autoload: &JsonValue, section: &str, dir: &str) -> (r: Result<Vec<String>, String>)
    ensures
        match r {
            Ok(paths) => listed_paths(*autoload, section@, dir@) == Ok::<Seq<Seq<char>>, Seq<char>>(
                views(paths@),
            ),
            Err(e) => listed_paths(*autoload, section@, dir@) == Err::<Seq<Seq<char>>, Seq<char>>(
                e@,
            ),
        },
{
    match autoload.get(section) {
        Some(value) => {
            let paths = autoload_paths(value, section)?;
            let ghost names = views(paths@);
            let mut joined: Vec<String> = Vec::new();
            let mut i: usize = 0;
            while i < paths.len()
                invariant
                    i <= paths@.len(),
                    names == views(paths@),
                    views(joined@) == names.take(i as int).map_values(
                        |p: Seq<char>| joined_path(dir@, p),
                    ),
                decreases paths@.len() - i,
            {
                let ghost before = joined@;
                joined.push(join_path(dir, paths[i].as_str()));
                assert(views(joined@) =~= views(before).push(joined_path(dir@, names[i as int])));
                assert(names.take(i + 1) =~= names.take(i as int).push(names[i as int]));
                assert(names.take(i + 1).map_values(|p: Seq<char>| joined_path(dir@, p)) =~= names.take(
                    i as int,
                ).map_values(|p: Seq<char>| joined_path(dir@, p)).push(joined_path(dir@, names[i as int])));
                i = i + 1;
            }
            assert(names.take(paths@.len() as int) =~= names);
            Ok(joined)
        },
        None => {
            let empty: Vec<String> = Vec::new();
            assert(views(empty@) =~= Seq::<Seq<char>>::empty());
            Ok(empty)
        },
    }
}

/// What a manifest's `autoload` object adds, paths taken from `dir`: the `psr-4` and
/// `psr-0` pairs, the `files`, and the `classmap` roots; or the first error, in that
/// order. A manifest without `autoload` adds nothing.
pub open spec fn autoload_sections(composer: JsonValue, dir: Seq<char>) -> Result<
    (
        Seq<(Seq<char>, Seq<char>)>,
        Seq<(Seq<char>, Seq<char>)>,
        Seq<Seq<char>>,
        Seq<Seq<char>>,
    ),
    Seq<char>,
> {
    match composer.field("autoload"@) {
        None => Ok((Seq::empty(), Seq::empty(), Seq::empty(), Seq::empty())),
        Some(autoload) => match section_additions(autoload, "psr-4"@, dir) {
            Err(e) => Err(e),
            Ok(psr4) => match section_additions(autoload, "psr-0"@, dir) {
                Err(e) => Err(e),
                Ok(psr0) => match listed_paths(autoload, "files"@, dir) {
                    Err(e) => Err(e),
                    Ok(files) => match listed_paths(autoload, "classmap"@, dir) {
                        Err(e) => Err(e),
                        Ok(roots) => Ok((psr4, psr0, files, roots)),
                    },
                },
            },
        },
    }
}

/// Adds what a manifest's `autoload` object names, paths taken from the package
/// directory `dir`, and returns the `classmap` roots, whose PHP files the caller reads
/// and hands to `add_classmap_file`. On an error the map is left as it was.
pub fn collect_autoload_sections(map: &mut AutoloadMap, composer_json: &JsonValue, dir: &str) -> (r:
    Result<Vec<String>, String>)
    requires
        old(map).well_formed(),
    ensures
        final(map).well_formed(),
        match autoload_sections(*composer_json, dir@) {
            Err(e) => r matches Err(m) && m@ == e && *final(map) == *old(map),
            Ok((psr4, psr0, files, roots)) => r matches Ok(found) && views(found@) == roots
                && extends_paths(final(map).psr4@, old(map).psr4@, psr4) && extends_paths(
                final(map).psr0@,
                old(map).psr0@,
                psr0,
            ) && views(final(map).files@) == views(old(map).files@) + files
                && final(map).classmap == old(map).classmap,
        },
{
    let autoload = match composer_json.get("autoload") {
        Some(autoload) => autoload,
        None => {
            let none: Vec<String> = Vec::new();
            assert(views(none@) =~= Seq::<Seq<char>>::empty());
            proof {
                let empty = Seq::<(Seq<char>, Seq<char>)>::empty();
                assert forall|key: Seq<char>| #[trigger] added_for(empty, key).len() == 0 by {
                    assert(added_for(empty, key) =~= Seq::<Seq<char>>::empty());
                }
                assert forall|key: Seq<char>| #[trigger] paths_under(map.psr4@, key) == paths_under(
                    map.psr4@,
                    key,
                ) + added_for(empty, key) by {
                    assert(paths_under(map.psr4@, key) + added_for(empty, key) =~= paths_under(
                        map.psr4@,
                        key,
                    ));
                }
                assert forall|key: Seq<char>| #[trigger] paths_under(map.psr0@, key) == paths_under(
                    map.psr0@,
                    key,
                ) + added_for(empty, key) by {
                    assert(paths_under(map.psr0@, key) + added_for(empty, key) =~= paths_under(
                        map.psr0@,
                        key,
                    ));
                }
                assert(views(map.files@) + Seq::<Seq<char>>::empty() =~= views(map.files@));
            }
            return Ok(none);
        },
    };
    let psr4 = section_pairs(autoload, "psr-4", dir)?;
    let psr0 = section_pairs(autoload, "psr-0", dir)?;
    let files = section_paths(autoload, "files", dir)?;
    let roots = section_paths(autoload, "classmap", dir)?;
    add_namespace_paths(&mut map.psr4, psr4);
    add_namespace_paths(&mut map.psr0, psr0);
    let ghost files_before = views(map.files@);
    let ghost middle = *map;
    let mut i: usize = 0;
    while i < files.len()
        invariant
            i <= files@.len(),
            map.psr4 == middle.psr4,
            map.psr0 == middle.psr0,
            map.classmap == middle.classmap,
            views(map.files@) == files_before + views(files@).take(i as int),
        decreases files@.len() - i,
    {
        let ghost before = views(map.files@);
        map.files.push(crate::text::owned(files[i].as_str()));
        assert(views(map.files@) =~= before.push(files@[i as int]@));
        assert(views(files@).take(i + 1) =~= views(files@).take(i as int).push(files@[i as int]@));
        i = i + 1;
    }
    assert(views(files@).take(files@.len() as int) =~= views(files@));
    Ok(roots)
}

/// `file` is kept under `key`.
pub open spec fn keeps_file(entries: Seq<(String, String)>, key: Seq<char>, file: Seq<char>) -> bool {
    value_under(entries, key) matches Some(f) && f@ == file
}

/// Keeps `file` under each class the PHP source `content` declares.
pub fn add_classmap_file(map: &mut AutoloadMap, file: &str, content: &str)
    requires
        old(map).well_formed(),
    ensures
        final(map).well_formed(),
        final(map).psr4 == old(map).psr4,
        final(map).psr0 == old(map).psr0,
        final(map).files == old(map).files,
        forall|key: Seq<char>|
            if symbols_spec(content@).contains(key) {
                keeps_file(final(map).classmap@, key, file@)
            } else {
                #[trigger] value_under(final(map).classmap@, key) == value_under(old(map).classmap@, key)
            },
{
    let symbols = php_symbols(content);
    let ghost all = views(symbols@);
    let ghost start = map.classmap@;
    let ghost initial = *map;
    let mut i: usize = 0;
    while i < symbols.len()
        invariant
            i <= symbols@.len(),
            map.psr4 == initial.psr4,
            map.psr0 == initial.psr0,
            map.files == initial.files,
            all == views(symbols@),
            all == symbols_spec(content@),
            strictly_sorted(entry_keys(map.classmap@)),
            forall|key: Seq<char>|
                if all.take(i as int).contains(key) {
                    keeps_file(map.classmap@, key, file@)
                } else {
                    #[trigger] value_under(map.classmap@, key) == value_under(start, key)
                },
        decreases symbols@.len() - i,
    {
        let ghost before = map.classmap@;
        let ghost class = all[i as int];
        add_class(&mut map.classmap, crate::text::owned(symbols[i].as_str()), crate::text::owned(file));
        proof {
            let longer = all.take(i + 1);
            assert(longer =~= all.take(i as int).push(class));
            assert forall|key: Seq<char>| #[trigger] longer.contains(key) <==> (all.take(i as int).contains(
                key,
            ) || key == class) by {
                if longer.contains(key) {
                    let w = choose|w: int| 0 <= w < longer.len() && longer[w] == key;
                    if w < i {
                        assert(all.take(i as int)[w] == key);
                    }
                }
                if key == class {
                    assert(longer[i as int] == key);
                }
                if all.take(i as int).contains(key) {
                    let w = choose|w: int| 0 <= w < i && all.take(i as int)[w] == key;
                    assert(longer[w] == key);
                }
            }
            assert forall|key: Seq<char>| if longer.contains(key) {
                keeps_file(map.classmap@, key, file@)
            } else {
                #[trigger] value_under(map.classmap@, key) == value_under(start, key)
            } by {
                if key != class {
                    assert(value_under(map.classmap@, key) == value_under(before, key));
                }
            }
        }
        i = i + 1;
    }
    assert(all.take(symbols@.len() as int) =~= all);
}

// ---------------------------------------------------------------------------
// The files written
// ---------------------------------------------------------------------------

/// The entry file: loads the map, registers it, and loads the `files` up front.
pub const AUTOLOAD_FILE: &'static str = r#"<?php

$loader = require __DIR__ . '/concerto_autoload.php';
spl_autoload_register($loader);
$loader('__concerto_files');

return $loader;
"#;

/// The map file up to its JSON data.
pub const LOADER_HEAD: &'static str = r#"<?php

$autoloadJson = <<<'CONCERTO_AUTOLOAD_JSON'
"#;

/// The map file between its JSON data and the loader function's body.
pub const LOADER_MIDDLE: &'static str = r#"
CONCERTO_AUTOLOAD_JSON;

$autoload = json_decode($autoloadJson, true, 512, JSON_THROW_ON_ERROR);

return function (string $class) use ($autoload): void {
"#;

/// The loader function's body: `files` on request, then the class map, then `psr-4`
/// and `psr-0` prefixes.
pub const LOADER_BODY: &'static str = r#"    if ($class === '__concerto_files') {
        foreach ($autoload['files'] as $file) {
            require_once $file;
        }

        return;
    }

    if (isset($autoload['classmap'][$class]) && is_file($autoload['classmap'][$class])) {
        require $autoload['classmap'][$class];
        return;
    }

    foreach ($autoload['psr4'] as $prefix => $directories) {
        if (!str_starts_with($class, $prefix)) {
            continue;
        }

        $relativeClass = substr($class, strlen($prefix));
        $relativePath = str_replace('\\', '/', $relativeClass) . '.php';

        foreach ($directories as $directory) {
            $file = $directory . '/' . $relativePath;

            if (is_file($file)) {
                require $file;
                return;
            }
        }
    }

    foreach ($autoload['psr0'] as $prefix => $directories) {
        if ($prefix !== '' && !str_starts_with($class, $prefix)) {
            continue;
        }

        $relativePath = str_replace(['\\', '_'], '/', $class) . '.php';

        foreach ($directories as $directory) {
            $file = $directory . '/' . $relativePath;

            if (is_file($file)) {
                require $file;
                return;
            }
        }
    }
};
"#;

/// The text of the entry file.
pub fn autoload_file() -> (r: String)
    ensures
        r@ == AUTOLOAD_FILE@,
{
    crate::text::owned(AUTOLOAD_FILE)
}

/// The text of the map file around its JSON data.
pub fn loader_file(data_json: &str) -> (r: String)
    ensures
        r@ == LOADER_HEAD@ + data_json@ + LOADER_MIDDLE@ + LOADER_BODY@,
{
    let head = concat3(LOADER_HEAD, data_json, LOADER_MIDDLE);
    crate::text::concat2(head.as_str(), LOADER_BODY)
}

// ---------------------------------------------------------------------------
// What the file order keeps
// ---------------------------------------------------------------------------

/// A visit from `before` to `after`: the visited names only grow, the order only grows
/// at its end, by names each once that are exactly the ones newly visited, and names
/// outside the lockfile come in only from `extra`.
pub open spec fn visit_grows(
    packages: Seq<LockedPackage>,
    before: (Set<Seq<char>>, Seq<Seq<char>>),
    after: (Set<Seq<char>>, Seq<Seq<char>>),
    extra: Set<Seq<char>>,
) -> bool {
    let added = after.1.skip(before.1.len() as int);
    &&& before.0.subset_of(after.0)
    &&& before.1.len() <= after.1.len()
    &&& after.1.take(before.1.len() as int) == before.1
    &&& added.no_duplicates()
    &&& added.to_set() == after.0.difference(before.0)
    &&& after.0.difference(before.0).subset_of(node_set(packages).union(extra))
}

proof fn lemma_dependencies_are_nodes(packages: Seq<LockedPackage>, name: Seq<char>)
    ensures
        dependency_names(packages, name).to_set().subset_of(node_set(packages)),
{
    broadcast use vstd::seq_lib::group_to_multiset_ensures;

    if entry_for(packages, name) is Some {
        let i = entry_for(packages, name)->0;
        let pred = |n: Seq<char>| entry_for(packages, n) is Some;
        let raw = packages[i].package_requires@.map_values(|r: RequiredPackage| r.name@);
        crate::order::lemma_text_le_total_ordering();
        raw.filter(pred).lemma_sort_by_ensures(text_order());
        let deps = dependency_names(packages, name);
        assert forall|x: Seq<char>| deps.to_set().contains(x) implies node_set(packages).contains(x) by {
            assert(deps.contains(x));
            assert(raw.filter(pred).to_multiset().count(x) > 0);
            assert(raw.filter(pred).contains(x));
            let w = choose|w: int| 0 <= w < raw.filter(pred).len() && raw.filter(pred)[w] == x;
            raw.lemma_filter_pred(pred, w);
            lemma_in_node_set(packages, x);
        }
    }
}

proof fn lemma_visit_grows(
    packages: Seq<LockedPackage>,
    name: Seq<char>,
    state: (Set<Seq<char>>, Seq<Seq<char>>),
    fuel: nat,
)
    ensures
        visit_grows(packages, state, visit_spec(packages, name, state, fuel), set![name]),
    decreases fuel, 0int, 0int,
{
    let result = visit_spec(packages, name, state, fuel);
    if state.0.contains(name) || fuel == 0 {
        assert(result.1.skip(state.1.len() as int) =~= Seq::<Seq<char>>::empty());
        assert(result.1.take(state.1.len() as int) =~= state.1);
        assert(result.0.difference(state.0) =~= Set::<Seq<char>>::empty());
        assert(Seq::<Seq<char>>::empty().to_set() =~= Set::<Seq<char>>::empty());
    } else {
        let deps = dependency_names(packages, name);
        let first = (state.0.insert(name), state.1);
        let inner = visit_all_spec(packages, deps, first, (fuel - 1) as nat);
        lemma_dependencies_are_nodes(packages, name);
        lemma_visit_all_grows(packages, deps, first, (fuel - 1) as nat);
        let d1 = inner.1.skip(state.1.len() as int);
        let d = result.1.skip(state.1.len() as int);
        assert(d =~= d1.push(name));
        assert(result.1.take(state.1.len() as int) =~= inner.1.take(state.1.len() as int));
        assert(!d1.to_set().contains(name));
        assert(!d1.contains(name)) by {
            if d1.contains(name) {
                let w = choose|w: int| 0 <= w < d1.len() && d1[w] == name;
                assert(d1.to_set().contains(d1[w]));
            }
        }
        assert(d.no_duplicates()) by {
            assert forall|a: int, b: int| 0 <= a < d.len() && 0 <= b < d.len() && a != b implies d[a]
                != d[b] by {
                if a < d1.len() && b < d1.len() {
                } else if a < d1.len() {
                    assert(d1.contains(d1[a]));
                } else if b < d1.len() {
                    assert(d1.contains(d1[b]));
                }
            }
        }
        d1.lemma_push_to_set_commute(name);
        assert(d.to_set() =~= result.0.difference(state.0));
        assert(result.0.difference(state.0).subset_of(node_set(packages).union(set![name]))) by {
            assert forall|x: Seq<char>| result.0.difference(state.0).contains(x) implies node_set(
                packages,
            ).union(set![name]).contains(x) by {
                if x != name {
                    assert(inner.0.difference(first.0).contains(x));
                }
            }
        }
    }
}

proof fn lemma_visit_all_grows(
    packages: Seq<LockedPackage>,
    names: Seq<Seq<char>>,
    state: (Set<Seq<char>>, Seq<Seq<char>>),
    fuel: nat,
)
    requires
        names.to_set().subset_of(node_set(packages)),
    ensures
        visit_grows(packages, state, visit_all_spec(packages, names, state, fuel), Set::empty()),
    decreases fuel, 1int, names.len(),
{
    let result = visit_all_spec(packages, names, state, fuel);
    if names.len() == 0 {
        assert(result.1.skip(state.1.len() as int) =~= Seq::<Seq<char>>::empty());
        assert(result.1.take(state.1.len() as int) =~= state.1);
        assert(result.0.difference(state.0) =~= Set::<Seq<char>>::empty());
        assert(Seq::<Seq<char>>::empty().to_set() =~= Set::<Seq<char>>::empty());
    } else {
        let rest = names.drop_last();
        let last = names.last();
        assert(rest.to_set().subset_of(names.to_set())) by {
            assert forall|x: Seq<char>| rest.to_set().contains(x) implies names.to_set().contains(x) by {
                let w = choose|w: int| 0 <= w < rest.len() && rest[w] == x;
                assert(names[w] == x);
            }
        }
        assert(names.to_set().contains(last)) by {
            assert(names[names.len() - 1] == last);
        }
        let mid = visit_all_spec(packages, rest, state, fuel);
        lemma_visit_all_grows(packages, rest, state, fuel);
        lemma_visit_grows(packages, last, mid, fuel);
        let d1 = mid.1.skip(state.1.len() as int);
        let d2 = result.1.skip(mid.1.len() as int);
        let d = result.1.skip(state.1.len() as int);
        assert(mid.1 =~= state.1 + d1);
        assert(result.1 =~= mid.1 + d2);
        assert(d =~= d1 + d2);
        assert(result.1.take(state.1.len() as int) =~= state.1);
        assert(d.no_duplicates()) by {
            assert forall|a: int, b: int| 0 <= a < d.len() && 0 <= b < d.len() && a != b implies d[a]
                != d[b] by {
                if a < d1.len() && b >= d1.len() {
                    assert(d1.to_set().contains(d1[a]));
                    assert(d2.to_set().contains(d2[b - d1.len()]));
                } else if b < d1.len() && a >= d1.len() {
                    assert(d1.to_set().contains(d1[b]));
                    assert(d2.to_set().contains(d2[a - d1.len()]));
                } else if a >= d1.len() && b >= d1.len() {
                    assert(d[a] == d2[a - d1.len()] && d[b] == d2[b - d1.len()]);
                }
            }
        }
        assert forall|x: Seq<char>| d.to_set().contains(x) <==> result.0.difference(state.0).contains(x)
            by {
            if d.to_set().contains(x) {
                let w = choose|w: int| 0 <= w < d.len() && d[w] == x;
                if w < d1.len() {
                    assert(d1.to_set().contains(d1[w]));
                } else {
                    assert(d2.to_set().contains(d2[w - d1.len()]));
                }
            }
            if result.0.difference(state.0).contains(x) {
                if mid.0.contains(x) {
                    assert(d1.to_set().contains(x));
                    let w = choose|w: int| 0 <= w < d1.len() && d1[w] == x;
                    assert(d[w] == x);
                } else {
                    assert(d2.to_set().contains(x));
                    let w = choose|w: int| 0 <= w < d2.len() && d2[w] == x;
                    assert(d[w + d1.len()] == x);
                }
            }
        }
        assert(d.to_set() =~= result.0.difference(state.0));
        assert(result.0.difference(state.0).subset_of(node_set(packages).union(Set::empty()))) by {
            assert forall|x: Seq<char>| result.0.difference(state.0).contains(x) implies node_set(
                packages,
            ).union(Set::empty()).contains(x) by {
                if !mid.0.contains(x) {
                    assert(result.0.difference(mid.0).contains(x));
                }
            }
        }
    }
}

proof fn lemma_visit_all_covers(
    packages: Seq<LockedPackage>,
    names: Seq<Seq<char>>,
    state: (Set<Seq<char>>, Seq<Seq<char>>),
    fuel: nat,
)
    requires
        names.to_set().subset_of(node_set(packages)),
        fuel >= unvisited(packages, state.0),
    ensures
        names.to_set().subset_of(visit_all_spec(packages, names, state, fuel).0),
    decreases names.len(),
{
    if names.len() > 0 {
        let rest = names.drop_last();
        let last = names.last();
        assert(rest.to_set().subset_of(names.to_set())) by {
            assert forall|x: Seq<char>| rest.to_set().contains(x) implies names.to_set().contains(x) by {
                let w = choose|w: int| 0 <= w < rest.len() && rest[w] == x;
                assert(names[w] == x);
            }
        }
        assert(names.to_set().contains(last)) by {
            assert(names[names.len() - 1] == last);
        }
        let mid = visit_all_spec(packages, rest, state, fuel);
        lemma_visit_all_covers(packages, rest, state, fuel);
        lemma_visit_all_grows(packages, rest, state, fuel);
        lemma_unvisited_subset(packages, state.0, mid.0);
        lemma_visit_grows(packages, last, mid, fuel);
        let result = visit_spec(packages, last, mid, fuel);
        if !mid.0.contains(last) {
            lemma_unvisited_insert(packages, mid.0, last);
            let deps = dependency_names(packages, last);
            lemma_dependencies_are_nodes(packages, last);
            lemma_visit_all_grows(packages, deps, (mid.0.insert(last), mid.1), (fuel - 1) as nat);
            assert(result.0.contains(last));
        }
        assert forall|x: Seq<char>| names.to_set().contains(x) implies result.0.contains(x) by {
            let w = choose|w: int| 0 <= w < names.len() && names[w] == x;
            if w < names.len() - 1 {
                assert(rest[w] == x);
                assert(rest.to_set().contains(x));
            }
        }
    }
}

/// Each package of the lockfile is loaded once: the file order lists every name the
/// lockfile holds, and no name twice.
pub proof fn lemma_file_order_lists_each_package_once(packages: Seq<LockedPackage>)
    ensures
        file_order_spec(packages).no_duplicates(),
        file_order_spec(packages).to_set() == node_set(packages),
{
    broadcast use vstd::seq_lib::group_to_multiset_ensures;

    let roots = package_names(packages).sort_by(text_order());
    crate::order::lemma_text_le_total_ordering();
    package_names(packages).lemma_sort_by_ensures(text_order());
    assert forall|x: Seq<char>| roots.to_set().contains(x) <==> node_set(packages).contains(x) by {
        if roots.to_set().contains(x) {
            assert(roots.contains(x));
            assert(package_names(packages).to_multiset().count(x) > 0);
        }
        if node_set(packages).contains(x) {
            assert(package_names(packages).contains(x));
            assert(roots.to_multiset().count(x) > 0);
            assert(roots.contains(x));
        }
    }
    let start = (Set::<Seq<char>>::empty(), Seq::<Seq<char>>::empty());
    lemma_unvisited_bound(packages, start.0);
    lemma_visit_all_grows(packages, roots, start, packages.len());
    lemma_visit_all_covers(packages, roots, start, packages.len());
    let result = visit_all_spec(packages, roots, start, packages.len());
    assert(result.1.skip(0) =~= result.1);
    assert(result.0.difference(start.0) =~= result.0);
    assert(node_set(packages).union(Set::empty()) =~= node_set(packages));
    assert(result.0 =~= node_set(packages));
}

// ---------------------------------------------------------------------------
// Dependencies first
// ---------------------------------------------------------------------------

/// Each name of `path` requires the next one, among the packages the lockfile holds.
pub open spec fn requirement_path(packages: Seq<LockedPackage>, path: Seq<Seq<char>>) -> bool {
    path.len() > 0 && forall|i: int|
        0 <= i < path.len() - 1 ==> #[trigger] dependency_names(packages, path[i]).contains(path[i + 1])
}

/// `from` is `to`, or requires it, directly or through other packages.
pub open spec fn requires_path(packages: Seq<LockedPackage>, from: Seq<char>, to: Seq<char>) -> bool {
    exists|path: Seq<Seq<char>>|
        #[trigger] requirement_path(packages, path) && path[0] == from && path.last() == to
}

/// Each package comes after the packages it requires, but for one that in turn
/// requires it (a cycle).
pub open spec fn dependencies_first(packages: Seq<LockedPackage>, order: Seq<Seq<char>>) -> bool {
    forall|i: int, d: Seq<char>|
        0 <= i < order.len() && #[trigger] dependency_names(packages, order[i]).contains(d) ==> (exists|j: int|
            0 <= j < i && order[j] == d) || requires_path(packages, d, order[i])
}

/// The packages whose visit has begun and not yet ended.
pub open spec fn active(state: (Set<Seq<char>>, Seq<Seq<char>>)) -> Set<Seq<char>> {
    state.0.difference(state.1.to_set())
}

proof fn lemma_path_self(packages: Seq<LockedPackage>, x: Seq<char>)
    ensures
        requires_path(packages, x, x),
{
    let path = seq![x];
    assert(requirement_path(packages, path));
}

proof fn lemma_path_extend(packages: Seq<LockedPackage>, from: Seq<char>, mid: Seq<char>, to: Seq<char>)
    requires
        requires_path(packages, from, mid),
        dependency_names(packages, mid).contains(to),
    ensures
        requires_path(packages, from, to),
{
    let path = choose|path: Seq<Seq<char>>|
        #[trigger] requirement_path(packages, path) && path[0] == from && path.last() == mid;
    let longer = path.push(to);
    assert forall|i: int| 0 <= i < longer.len() - 1 implies #[trigger] dependency_names(
        packages,
        longer[i],
    ).contains(longer[i + 1]) by {
        if i < path.len() - 1 {
            assert(longer[i] == path[i] && longer[i + 1] == path[i + 1]);
        } else {
            assert(longer[i] == mid && longer[i + 1] == to);
        }
    }
    assert(requirement_path(packages, longer));
}

proof fn lemma_active_kept(
    packages: Seq<LockedPackage>,
    before: (Set<Seq<char>>, Seq<Seq<char>>),
    after: (Set<Seq<char>>, Seq<Seq<char>>),
    extra: Set<Seq<char>>,
)
    requires
        visit_grows(packages, before, after, extra),
        before.1.to_set().subset_of(before.0),
    ensures
        active(after) == active(before),
        after.1.to_set().subset_of(after.0),
{
    let added = after.1.skip(before.1.len() as int);
    assert(after.1 =~= before.1 + added);
    assert forall|x: Seq<char>| after.1.to_set().contains(x) <==> (before.1.to_set().contains(x)
        || added.to_set().contains(x)) by {
        if after.1.to_set().contains(x) {
            let w = choose|w: int| 0 <= w < after.1.len() && after.1[w] == x;
            if w < before.1.len() {
                assert(before.1[w] == x);
            } else {
                assert(added[w - before.1.len()] == x);
            }
        }
        if before.1.to_set().contains(x) {
            let w = choose|w: int| 0 <= w < before.1.len() && before.1[w] == x;
            assert(after.1[w] == x);
        }
        if added.to_set().contains(x) {
            let w = choose|w: int| 0 <= w < added.len() && added[w] == x;
            assert(after.1[w + before.1.len()] == x);
        }
    }
    assert(added.to_set() == after.0.difference(before.0));
    assert forall|x: Seq<char>| after.1.to_set().contains(x) implies after.0.contains(x) by {
        if before.1.to_set().contains(x) {
            assert(before.0.contains(x));
        } else {
            assert(added.to_set().contains(x));
            assert(after.0.difference(before.0).contains(x));
        }
    }
    assert forall|x: Seq<char>| active(after).contains(x) <==> active(before).contains(x) by {
        if active(after).contains(x) {
            assert(!added.to_set().contains(x));
            assert(!after.0.difference(before.0).contains(x));
        }
        if active(before).contains(x) {
            assert(before.0.subset_of(after.0));
            assert(!after.0.difference(before.0).contains(x));
        }
    }
    assert(active(after) =~= active(before));
}

proof fn lemma_order_prefix(packages: Seq<LockedPackage>, order: Seq<Seq<char>>, name: Seq<char>)
    requires
        dependencies_first(packages, order),
    ensures
        forall|i: int, d: Seq<char>|
            0 <= i < order.len() && #[trigger] dependency_names(packages, order.push(name)[i]).contains(d)
                ==> (exists|j: int| 0 <= j < i && order.push(name)[j] == d) || requires_path(
                packages,
                d,
                order.push(name)[i],
            ),
{
    let longer = order.push(name);
    assert forall|i: int, d: Seq<char>|
        0 <= i < order.len() && #[trigger] dependency_names(packages, longer[i]).contains(d) implies (exists|j: int|
        0 <= j < i && longer[j] == d) || requires_path(packages, d, longer[i]) by {
        assert(longer[i] == order[i]);
        if exists|j: int| 0 <= j < i && order[j] == d {
            let j = choose|j: int| 0 <= j < i && order[j] == d;
            assert(longer[j] == d);
        }
    }
}

proof fn lemma_visit_order(
    packages: Seq<LockedPackage>,
    name: Seq<char>,
    state: (Set<Seq<char>>, Seq<Seq<char>>),
    fuel: nat,
)
    requires
        state.1.to_set().subset_of(state.0),
        dependencies_first(packages, state.1),
        forall|a: Seq<char>| #[trigger] active(state).contains(a) ==> requires_path(packages, a, name),
        fuel >= unvisited(packages, state.0),
        node_set(packages).contains(name),
    ensures
        dependencies_first(packages, visit_spec(packages, name, state, fuel).1),
        visit_spec(packages, name, state, fuel).0.contains(name),
    decreases fuel, 0int, 0int,
{
    if !state.0.contains(name) {
        lemma_unvisited_insert(packages, state.0, name);
        let deps = dependency_names(packages, name);
        let first = (state.0.insert(name), state.1);
        assert(!state.1.to_set().contains(name));
        assert(active(first) =~= active(state).insert(name));
        lemma_dependencies_are_nodes(packages, name);
        assert forall|a: Seq<char>| #[trigger] active(first).contains(a) implies forall|k: Seq<char>|
            deps.contains(k) ==> requires_path(packages, a, k) by {
            assert forall|k: Seq<char>| deps.contains(k) implies requires_path(packages, a, k) by {
                if a == name {
                    lemma_path_self(packages, name);
                } 
                lemma_path_extend(packages, a, name, k);
            }
        }
        lemma_visit_all_order(packages, deps, first, (fuel - 1) as nat);
        lemma_visit_all_grows(packages, deps, first, (fuel - 1) as nat);
        let inner = visit_all_spec(packages, deps, first, (fuel - 1) as nat);
        lemma_active_kept(packages, first, inner, Set::empty());
        let result = visit_spec(packages, name, state, fuel);
        assert(result.1 == inner.1.push(name));
        lemma_order_prefix(packages, inner.1, name);
        assert forall|i: int, d: Seq<char>|
            0 <= i < result.1.len() && #[trigger] dependency_names(packages, result.1[i]).contains(d) implies (exists|j: int|
            0 <= j < i && result.1[j] == d) || requires_path(packages, d, result.1[i]) by {
            if i == inner.1.len() {
                assert(result.1[i] == name);
                assert(deps.to_set().contains(d));
                assert(inner.0.contains(d));
                if inner.1.to_set().contains(d) {
                    let j = choose|j: int| 0 <= j < inner.1.len() && inner.1[j] == d;
                    assert(result.1[j] == d);
                } else {
                    assert(active(inner).contains(d));
                    if d == name {
                        lemma_path_self(packages, name);
                    }
                }
            }
        }
    }
}

proof fn lemma_visit_all_order(
    packages: Seq<LockedPackage>,
    names: Seq<Seq<char>>,
    state: (Set<Seq<char>>, Seq<Seq<char>>),
    fuel: nat,
)
    requires
        state.1.to_set().subset_of(state.0),
        dependencies_first(packages, state.1),
        forall|a: Seq<char>| #[trigger] active(state).contains(a) ==> forall|k: Seq<char>|
            names.contains(k) ==> requires_path(packages, a, k),
        fuel >= unvisited(packages, state.0),
        names.to_set().subset_of(node_set(packages)),
    ensures
        dependencies_first(packages, visit_all_spec(packages, names, state, fuel).1),
        names.to_set().subset_of(visit_all_spec(packages, names, state, fuel).0),
    decreases fuel, 1int, names.len(),
{
    if names.len() > 0 {
        let rest = names.drop_last();
        let last = names.last();
        assert forall|x: Seq<char>| rest.contains(x) implies names.contains(x) by {
            let w = choose|w: int| 0 <= w < rest.len() && rest[w] == x;
            assert(names[w] == x);
        }
        assert(rest.to_set().subset_of(names.to_set()));
        assert(names.contains(last)) by {
            assert(names[names.len() - 1] == last);
        }
        lemma_visit_all_order(packages, rest, state, fuel);
        lemma_visit_all_grows(packages, rest, state, fuel);
        let mid = visit_all_spec(packages, rest, state, fuel);
        lemma_active_kept(packages, state, mid, Set::empty());
        lemma_unvisited_subset(packages, state.0, mid.0);
        lemma_visit_order(packages, last, mid, fuel);
        lemma_visit_grows(packages, last, mid, fuel);
        let result = visit_spec(packages, last, mid, fuel);
        assert forall|x: Seq<char>| names.to_set().contains(x) implies result.0.contains(x) by {
            let w = choose|w: int| 0 <= w < names.len() && names[w] == x;
            if w < names.len() - 1 {
                assert(rest[w] == x);
                assert(rest.to_set().contains(x));
            }
        }
    }
}

/// The files of each package are loaded after those of the packages it requires,
/// unless such a package requires it in turn (directly or through others).
pub proof fn lemma_file_order_dependencies_first(packages: Seq<LockedPackage>)
    ensures
        dependencies_first(packages, file_order_spec(packages)),
{
    broadcast use vstd::seq_lib::group_to_multiset_ensures;

    let roots = package_names(packages).sort_by(text_order());
    crate::order::lemma_text_le_total_ordering();
    package_names(packages).lemma_sort_by_ensures(text_order());
    assert forall|x: Seq<char>| roots.to_set().contains(x) implies node_set(packages).contains(x) by {
        assert(roots.contains(x));
        assert(package_names(packages).to_multiset().count(x) > 0);
    }
    let start = (Set::<Seq<char>>::empty(), Seq::<Seq<char>>::empty());
    assert(start.1.to_set() =~= Set::<Seq<char>>::empty());
    assert(active(start) =~= Set::<Seq<char>>::empty());
    lemma_unvisited_bound(packages, start.0);
    lemma_visit_all_order(packages, roots, start, packages.len());
}

} // verus!
