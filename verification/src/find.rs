//! The file finder's engine: entry-type and name-pattern filtering of
//! directory entries, and the lexicographic ordering of the retained
//! paths. The directory walk itself is input; this module decides what is
//! kept and in what order it is emitted.

use vstd::prelude::*;

use crate::text::{byte_views, copy_bytes};

verus! {

#[verifier::external_type_specification]
#[verifier::external_body]
pub struct ExRegex(regex::Regex);

/// Whether `pattern` is a valid regular expression, as `regex::Regex::new`
/// decides it.
pub uninterp spec fn regex_valid(pattern: Seq<char>) -> bool;

/// Whether the regular expression `pattern` matches somewhere in `text`,
/// as `regex::Regex::is_match` decides it.
pub uninterp spec fn regex_match(pattern: Seq<char>, text: Seq<char>) -> bool;

/// A compiled name pattern together with its source text.
pub struct NamePattern {
    re: regex::Regex,
    text: String,
}

impl NamePattern {
    /// The pattern text this value was compiled from.
    pub closed spec fn pattern(&self) -> Seq<char> {
        self.text@
    }

    /// Relies on regex::Regex::new: compiling succeeds exactly on the
    /// valid patterns, and the compiled value depends on the pattern text
    /// alone.
    #[verifier::external_body]
    pub(crate) fn compile(s: &str) -> (r: Option<NamePattern>)
        ensures
            r is Some <==> regex_valid(s@),
            r matches Some(p) ==> p.pattern() == s@,
    {
        match regex::Regex::new(s) {
            Ok(re) => Some(NamePattern { re, text: s.to_string() }),
            Err(_) => None,
        }
    }

    /// Relies on regex::Regex::is_match: the result depends on the
    /// pattern and the haystack alone.
    #[verifier::external_body]
    pub(crate) fn matches(&self, text: &str) -> (r: bool)
        ensures
            r == regex_match(self.pattern(), text@),
    {
        self.re.is_match(text)
    }
}

/// The pattern texts of a sequence of compiled patterns.
pub open spec fn pattern_texts(ps: Seq<NamePattern>) -> Seq<Seq<char>> {
    ps.map_values(|p: NamePattern| p.pattern())
}

/// Compiles every requested name pattern; the first invalid pattern text
/// is handed back instead.
pub fn build_name_filters(pats: &Vec<String>) -> (r: Result<Vec<NamePattern>, String>)
    ensures
        r is Ok <==> (forall|k: int|
            0 <= k < pats@.len() ==> regex_valid(#[trigger] pats@[k]@)),
        r matches Ok(v) ==> {
            &&& v@.len() == pats@.len()
            &&& forall|k: int| 0 <= k < v@.len() ==> (#[trigger] v@[k].pattern()) == pats@[k]@
        },
        r matches Err(e) ==> exists|k: int|
            {
                &&& 0 <= k < pats@.len()
                &&& !regex_valid(#[trigger] pats@[k]@)
                &&& e@ == pats@[k]@
                &&& forall|m: int| 0 <= m < k ==> regex_valid(#[trigger] pats@[m]@)
            },
{
    let mut out: Vec<NamePattern> = Vec::new();
    let mut i: usize = 0;
    while i < pats.len()
        invariant
            i <= pats@.len(),
            out@.len() == i,
            forall|k: int| 0 <= k < i ==> regex_valid(#[trigger] pats@[k]@),
            forall|k: int| 0 <= k < i ==> (#[trigger] out@[k].pattern()) == pats@[k]@,
        decreases pats@.len() - i,
    {
        match NamePattern::compile(pats[i].as_str()) {
            Some(p) => {
                out.push(p);
            },
            None => {
                let e = pats[i].clone();
                return Err(e);
            },
        }
        i += 1;
    }
    Ok(out)
}

/// The classification of a filesystem entry.
#[derive(Debug, PartialEq, Eq, Structural, Clone, Copy)]
pub enum EntryType {
    Dir,
    File,
    Link,
}

/// One entry met by the walk: its full path, its base name where that
/// name is valid text, and its kind.
pub struct Entry {
    pub path: Vec<u8>,
    pub name: Option<String>,
    pub kind: EntryType,
}

/// Whether `kind` passes the type filter: an empty filter accepts every
/// kind.
pub open spec fn type_matches(kind: EntryType, types: Seq<EntryType>) -> bool {
    types.len() == 0 || types.contains(kind)
}

/// Whether a base name matches one pattern; a nameless entry matches no
/// pattern.
pub open spec fn name_matches(name: Option<String>, pat: Seq<char>) -> bool {
    match name {
        Some(n) => regex_match(pat, n@),
        None => false,
    }
}

/// How many of the patterns match the name.
pub open spec fn match_count(name: Option<String>, pats: Seq<Seq<char>>) -> nat
    decreases pats.len(),
{
    if pats.len() == 0 {
        0
    } else {
        match_count(name, pats.drop_last()) + if name_matches(name, pats.last()) {
            1nat
        } else {
            0nat
        }
    }
}

/// How many times a retained entry's path is emitted: once with no name
/// filter, else once per matching pattern.
pub open spec fn copies(name: Option<String>, pats: Seq<Seq<char>>) -> nat {
    if pats.len() == 0 {
        1
    } else {
        match_count(name, pats)
    }
}

/// `p` written out `n` times as separate items.
pub open spec fn repeat_item(p: Seq<u8>, n: nat) -> Seq<Seq<u8>>
    decreases n,
{
    if n == 0 {
        Seq::empty()
    } else {
        repeat_item(p, (n - 1) as nat).push(p)
    }
}

/// The retained paths, in walk order: for each entry whose kind passes the
/// type filter, its path once per matching pattern (once outright when no
/// name filter is given).
pub open spec fn spec_selected(
    entries: Seq<Entry>,
    types: Seq<EntryType>,
    pats: Seq<Seq<char>>,
) -> Seq<Seq<u8>>
    decreases entries.len(),
{
    if entries.len() == 0 {
        Seq::empty()
    } else {
        let e = entries.last();
        spec_selected(entries.drop_last(), types, pats) + if type_matches(e.kind, types) {
            repeat_item(e.path@, copies(e.name, pats))
        } else {
            Seq::empty()
        }
    }
}

fn type_match_exec(kind: &EntryType, types: &Vec<EntryType>) -> (r: bool)
    ensures
        r == type_matches(*kind, types@),
{
    if types.len() == 0 {
        return true;
    }
    let mut j: usize = 0;
    while j < types.len()
        invariant
            j <= types@.len(),
            forall|k: int| 0 <= k < j ==> types@[k] != *kind,
        decreases types@.len() - j,
    {
        if types[j] == *kind {
            proof {
                assert(types@[j as int] == *kind);
            }
            return true;
        }
        j += 1;
    }
    proof {
        assert(!types@.contains(*kind));
    }
    false
}

/// Applies the type and name filters to the walked entries, emitting
/// retained paths in walk order, one per matching pattern.
pub fn select(entries: &Vec<Entry>, types: &Vec<EntryType>, names: &Vec<NamePattern>) -> (out: Vec<
    Vec<u8>,
>)
    ensures
        byte_views(out@) == spec_selected(entries@, types@, pattern_texts(names@)),
{
    let ghost pats = pattern_texts(names@);
    proof {
        assert(pats.len() == names@.len());
        assert(entries@.take(0) =~= Seq::<Entry>::empty());
    }
    let mut out: Vec<Vec<u8>> = Vec::new();
    let mut i: usize = 0;
    proof {
        assert(byte_views(out@) =~= spec_selected(entries@.take(0), types@, pats));
    }
    while i < entries.len()
        invariant
            i <= entries@.len(),
            pats == pattern_texts(names@),
            pats.len() == names@.len(),
            byte_views(out@) == spec_selected(entries@.take(i as int), types@, pats),
        decreases entries@.len() - i,
    {
        let e = &entries[i];
        proof {
            assert(entries@.take(i + 1).drop_last() =~= entries@.take(i as int));
            assert(entries@.take(i + 1).last() == entries@[i as int]);
        }
        let tm = type_match_exec(&e.kind, types);
        if tm {
            if names.len() == 0 {
                let p = copy_bytes(&e.path);
                out.push(p);
                proof {
                    assert(repeat_item(entries@[i as int].path@, 0) == Seq::<Seq<u8>>::empty());
                    assert(repeat_item(entries@[i as int].path@, 1nat) =~= Seq::<Seq<
                        u8,
                    >>::empty().push(entries@[i as int].path@));
                    assert(byte_views(out@) =~= byte_views(out@.drop_last()).push(
                        entries@[i as int].path@,
                    ));
                    assert(byte_views(out@) =~= spec_selected(entries@.take(i + 1), types@, pats));
                }
            } else {
                let ghost base = byte_views(out@);
                let mut j: usize = 0;
                proof {
                    assert(pats.take(0) =~= Seq::<Seq<char>>::empty());
                    assert(base + repeat_item(entries@[i as int].path@, 0) =~= base);
                }
                while j < names.len()
                    invariant
                        j <= names@.len(),
                        pats == pattern_texts(names@),
                        pats.len() == names@.len(),
                        0 <= i < entries@.len(),
                        e == &entries@[i as int],
                        byte_views(out@) == base + repeat_item(
                            entries@[i as int].path@,
                            match_count(entries@[i as int].name, pats.take(j as int)),
                        ),
                    decreases names@.len() - j,
                {
                    proof {
                        assert(pats.take(j + 1).drop_last() =~= pats.take(j as int));
                        assert(pats.take(j + 1).last() == pats[j as int]);
                        assert(pats[j as int] == names@[j as int].pattern());
                    }
                    let matched = match &e.name {
                        Some(nm) => names[j].matches(nm.as_str()),
                        None => false,
                    };
                    if matched {
                        let p = copy_bytes(&e.path);
                        let ghost pre = out@;
                        out.push(p);
                        proof {
                            let nm0 = entries@[i as int].name;
                            let p0 = entries@[i as int].path@;
                            assert(name_matches(nm0, pats[j as int]));
                            assert(match_count(nm0, pats.take(j + 1)) == match_count(
                                nm0,
                                pats.take(j as int),
                            ) + 1);
                            assert(repeat_item(p0, match_count(nm0, pats.take(j + 1)))
                                == repeat_item(p0, match_count(nm0, pats.take(j as int))).push(p0));
                            assert(byte_views(out@) =~= byte_views(pre).push(p0));
                            assert(byte_views(out@) =~= base + repeat_item(
                                p0,
                                match_count(nm0, pats.take(j + 1)),
                            ));
                        }
                    } else {
                        proof {
                            assert(byte_views(out@) =~= base + repeat_item(
                                entries@[i as int].path@,
                                match_count(entries@[i as int].name, pats.take(j + 1)),
                            ));
                        }
                    }
                    j += 1;
                }
                proof {
                    assert(pats.take(names@.len() as int) =~= pats);
                    assert(byte_views(out@) =~= spec_selected(entries@.take(i + 1), types@, pats));
                }
            }
        } else {
            proof {
                assert(byte_views(out@) =~= spec_selected(entries@.take(i + 1), types@, pats));
            }
        }
        i += 1;
    }
    proof {
        assert(entries@.take(entries@.len() as int) =~= entries@);
    }
    out
}

/// Byte-wise lexicographic order on paths: a proper prefix comes first,
/// and otherwise the first differing byte decides.
pub open spec fn lex_le(a: Seq<u8>, b: Seq<u8>) -> bool
    decreases a.len(),
{
    if a.len() == 0 {
        true
    } else if b.len() == 0 {
        false
    } else if a.first() < b.first() {
        true
    } else if a.first() > b.first() {
        false
    } else {
        lex_le(a.drop_first(), b.drop_first())
    }
}

pub proof fn lemma_lex_le_total(a: Seq<u8>, b: Seq<u8>)
    ensures
        lex_le(a, b) || lex_le(b, a),
    decreases a.len(),
{
    if a.len() > 0 && b.len() > 0 && a.first() == b.first() {
        lemma_lex_le_total(a.drop_first(), b.drop_first());
    }
}

pub proof fn lemma_lex_le_trans(a: Seq<u8>, b: Seq<u8>, c: Seq<u8>)
    requires
        lex_le(a, b),
        lex_le(b, c),
    ensures
        lex_le(a, c),
    decreases a.len(),
{
    if a.len() > 0 {
        if b.len() > 0 && c.len() > 0 && a.first() == b.first() && b.first() == c.first() {
            lemma_lex_le_trans(a.drop_first(), b.drop_first(), c.drop_first());
        }
    }
}

/// Compares two paths in byte-wise lexicographic order.
pub fn lex_le_bytes(a: &Vec<u8>, b: &Vec<u8>) -> (r: bool)
    ensures
        r == lex_le(a@, b@),
{
    let mut i: usize = 0;
    proof {
        assert(a@.skip(0) =~= a@);
        assert(b@.skip(0) =~= b@);
    }
    while i < a.len() && i < b.len()
        invariant
            i <= a@.len(),
            i <= b@.len(),
            lex_le(a@, b@) == lex_le(a@.skip(i as int), b@.skip(i as int)),
        decreases a@.len() - i,
    {
        proof {
            assert(a@.skip(i as int).first() == a@[i as int]);
            assert(b@.skip(i as int).first() == b@[i as int]);
            assert(a@.skip(i as int).drop_first() =~= a@.skip(i + 1));
            assert(b@.skip(i as int).drop_first() =~= b@.skip(i + 1));
        }
        if a[i] < b[i] {
            return true;
        }
        if a[i] > b[i] {
            return false;
        }
        i += 1;
    }
    if i == a.len() {
        proof {
            assert(a@.skip(i as int).len() == 0);
        }
        true
    } else {
        proof {
            assert(a@.skip(i as int).len() > 0);
            assert(b@.skip(i as int).len() == 0);
        }
        false
    }
}

/// A path sequence in lexicographic order.
pub open spec fn sorted_lex(ls: Seq<Seq<u8>>) -> bool {
    forall|p: int, q: int| 0 <= p < q < ls.len() ==> #[trigger] lex_le(ls[p], ls[q])
}

fn find_pos(v: &Vec<Vec<u8>>, x: &Vec<u8>, n: usize) -> (j: usize)
    requires
        n <= v@.len(),
    ensures
        j <= n,
        forall|k: int| 0 <= k < j ==> lex_le((#[trigger] v@[k])@, x@),
        j < n ==> !lex_le(v@[j as int]@, x@),
    decreases n,
{
    let mut j: usize = 0;
    while j < n
        invariant
            j <= n <= v@.len(),
            forall|k: int| 0 <= k < j ==> lex_le((#[trigger] v@[k])@, x@),
        decreases n - j,
    {
        if !lex_le_bytes(&v[j], x) {
            return j;
        }
        j += 1;
    }
    j
}

/// Sorts the retained paths lexicographically; the collection of paths is
/// unchanged.
pub fn sort_paths(v: &mut Vec<Vec<u8>>)
    ensures
        sorted_lex(byte_views(final(v)@)),
        byte_views(final(v)@).to_multiset() == byte_views(old(v)@).to_multiset(),
{
    broadcast use vstd::seq_lib::group_to_multiset_ensures;
    broadcast use vstd::multiset::group_multiset_axioms;

    let mut i: usize = 1;
    while i < v.len()
        invariant
            i >= 1,
            byte_views(v@).to_multiset() == byte_views(old(v)@).to_multiset(),
            forall|p: int, q: int| 0 <= p < q < i && q < v@.len() ==> lex_le(
                (#[trigger] v@[p])@,
                (#[trigger] v@[q])@,
            ),
        decreases v@.len() - i,
    {
        let ghost before = v@;
        let x = v.remove(i);
        let ghost mid = v@;
        let j = find_pos(v, &x, i);
        proof {
            if j < i {
                lemma_lex_le_total(mid[j as int]@, x@);
            }
            lemma_views_remove(before, i as int);
        }
        let ghost xv = x@;
        v.insert(j, x);
        proof {
            lemma_views_insert(mid, v@, j as int, xv);
            assert(byte_views(mid) =~= byte_views(before).remove(i as int));
            assert(byte_views(before)[i as int] == xv);
            let mb = byte_views(before).to_multiset();
            vstd::seq_lib::to_multiset_remove(byte_views(before), i as int);
            assert(byte_views(mid).to_multiset() =~= mb.remove(xv));
            vstd::seq_lib::to_multiset_insert(byte_views(mid), j as int, xv);
            assert(byte_views(v@).to_multiset() =~= byte_views(mid).to_multiset().insert(xv));
            assert(byte_views(before).contains(xv));
            vstd::seq_lib::to_multiset_contains(byte_views(before), xv);
            assert(mb.count(xv) > 0);
            assert(mb.remove(xv).insert(xv) =~= mb);
            assert(byte_views(v@).to_multiset() =~= byte_views(before).to_multiset());
            assert forall|p: int, q: int| 0 <= p < q < i + 1 && q < v@.len() implies lex_le(
                (#[trigger] v@[p])@,
                (#[trigger] v@[q])@,
            ) by {
                let jj = j as int;
                let ii = i as int;
                assert(forall|k: int| 0 <= k < ii ==> (#[trigger] mid[k]) == before[k]);
                assert(forall|k: int| 0 <= k < jj ==> (#[trigger] v@[k]) == mid[k]);
                assert(v@[jj]@ == xv);
                assert(forall|k: int| jj < k <= ii ==> (#[trigger] v@[k]) == mid[k - 1]);
                if q < jj {
                    assert(lex_le(v@[p]@, v@[q]@));
                } else if q == jj {
                    assert(p < jj);
                    assert(lex_le(mid[p]@, xv));
                } else if p < jj {
                    assert(lex_le(before[p]@, before[q - 1]@));
                } else if p == jj {
                    assert(!lex_le(mid[jj]@, xv));
                    assert(lex_le(xv, mid[jj]@));
                    if q - 1 > jj {
                        assert(lex_le(before[jj]@, before[q - 1]@));
                        lemma_lex_le_trans(xv, mid[jj]@, mid[q - 1]@);
                    }
                    assert(lex_le(xv, mid[q - 1]@));
                } else {
                    assert(lex_le(before[p - 1]@, before[q - 1]@));
                }
            }
        }
        i += 1;
    }
    proof {
        if v@.len() > 0 {
            assert forall|p: int, q: int|
                0 <= p < q < byte_views(v@).len() implies #[trigger] lex_le(
                byte_views(v@)[p],
                byte_views(v@)[q],
            ) by {
                assert(byte_views(v@)[p] == v@[p]@);
                assert(byte_views(v@)[q] == v@[q]@);
                assert(lex_le(v@[p]@, v@[q]@));
            }
        }
    }
}

proof fn lemma_views_remove(s: Seq<Vec<u8>>, i: int)
    requires
        0 <= i < s.len(),
    ensures
        byte_views(s.remove(i)) =~= byte_views(s).remove(i),
{
}

proof fn lemma_views_insert(s: Seq<Vec<u8>>, t: Seq<Vec<u8>>, i: int, x: Seq<u8>)
    requires
        0 <= i <= s.len(),
        t.len() == s.len() + 1,
        t[i]@ == x,
        forall|k: int| 0 <= k < i ==> (#[trigger] t[k]) == s[k],
        forall|k: int| i < k < t.len() ==> (#[trigger] t[k]) == s[k - 1],
    ensures
        byte_views(t) =~= byte_views(s).insert(i, x),
{
}

/// Filters the walked entries and hands the retained paths back in
/// lexicographic order: the finder's whole decision, from walk output to
/// emitted list.
pub fn select_and_sort(
    entries: &Vec<Entry>,
    types: &Vec<EntryType>,
    names: &Vec<NamePattern>,
) -> (out: Vec<Vec<u8>>)
    ensures
        sorted_lex(byte_views(out@)),
        byte_views(out@).to_multiset() == spec_selected(
            entries@,
            types@,
            pattern_texts(names@),
        ).to_multiset(),
{
    let mut out = select(entries, types, names);
    sort_paths(&mut out);
    out
}

proof fn lemma_repeat_item_len(p: Seq<u8>, n: nat)
    ensures
        repeat_item(p, n).len() == n,
    decreases n,
{
    if n > 0 {
        lemma_repeat_item_len(p, (n - 1) as nat);
    }
}

proof fn lemma_repeat_item_members(p: Seq<u8>, n: nat, x: Seq<u8>)
    requires
        repeat_item(p, n).contains(x),
    ensures
        x == p,
    decreases n,
{
    if n > 0 {
        if repeat_item(p, (n - 1) as nat).contains(x) {
            lemma_repeat_item_members(p, (n - 1) as nat, x);
        } else {
            let idx = choose|t: int|
                0 <= t < repeat_item(p, n).len() && repeat_item(p, n)[t] == x;
            assert(idx == repeat_item(p, n).len() - 1);
        }
    }
}

/// Every retained path is the path of some walked entry whose kind passes
/// the type filter: the finder emits nothing of a filtered-out kind.
pub proof fn lemma_selected_sources(
    entries: Seq<Entry>,
    types: Seq<EntryType>,
    pats: Seq<Seq<char>>,
    x: Seq<u8>,
)
    requires
        spec_selected(entries, types, pats).contains(x),
    ensures
        exists|k: int|
            {
                &&& 0 <= k < entries.len()
                &&& (#[trigger] entries[k]).path@ == x
                &&& type_matches(entries[k].kind, types)
            },
    decreases entries.len(),
{
    if entries.len() > 0 {
        let prefix = entries.drop_last();
        let e = entries.last();
        let front = spec_selected(prefix, types, pats);
        let tail = if type_matches(e.kind, types) {
            repeat_item(e.path@, copies(e.name, pats))
        } else {
            Seq::<Seq<u8>>::empty()
        };
        let idx = choose|t: int|
            0 <= t < spec_selected(entries, types, pats).len() && spec_selected(
                entries,
                types,
                pats,
            )[t] == x;
        if idx < front.len() {
            assert(front.contains(x));
            lemma_selected_sources(prefix, types, pats, x);
            let k = choose|k: int|
                {
                    &&& 0 <= k < prefix.len()
                    &&& (#[trigger] prefix[k]).path@ == x
                    &&& type_matches(prefix[k].kind, types)
                };
            assert(entries[k].path@ == x && type_matches(entries[k].kind, types));
        } else {
            assert(tail[idx - front.len()] == x);
            assert(tail.contains(x));
            assert(type_matches(e.kind, types));
            lemma_repeat_item_members(e.path@, copies(e.name, pats), x);
            assert(entries[entries.len() - 1].path@ == x);
        }
    }
}

proof fn lemma_match_count_le(name: Option<String>, pats: Seq<Seq<char>>)
    ensures
        match_count(name, pats) <= pats.len(),
    decreases pats.len(),
{
    if pats.len() > 0 {
        lemma_match_count_le(name, pats.drop_last());
    }
}

/// With at most one name pattern, entries with pairwise distinct paths
/// yield pairwise distinct retained paths: no duplicates are emitted.
/// The distinctness hypothesis is as weak as the claim allows: a walk
/// over repeated roots hands the same path in twice, and then two copies
/// are rightly emitted.
pub proof fn lemma_selected_no_duplicates(
    entries: Seq<Entry>,
    types: Seq<EntryType>,
    pats: Seq<Seq<char>>,
)
    requires
        pats.len() <= 1,
        forall|a: int, b: int|
            0 <= a < b < entries.len() ==> (#[trigger] entries[a]).path@ != (
            #[trigger] entries[b]).path@,
    ensures
        spec_selected(entries, types, pats).no_duplicates(),
    decreases entries.len(),
{
    if entries.len() == 0 {
        assert(spec_selected(entries, types, pats).no_duplicates());
    } else {
        let prefix = entries.drop_last();
        let e = entries.last();
        lemma_selected_no_duplicates(prefix, types, pats);
        let front = spec_selected(prefix, types, pats);
        let tail = if type_matches(e.kind, types) {
            repeat_item(e.path@, copies(e.name, pats))
        } else {
            Seq::<Seq<u8>>::empty()
        };
        let whole = spec_selected(entries, types, pats);
        lemma_match_count_le(e.name, pats);
        assert(copies(e.name, pats) <= 1);
        lemma_repeat_item_len(e.path@, copies(e.name, pats));
        assert(tail.len() <= 1);
        if tail.len() == 1 {
            assert(repeat_item(e.path@, 1nat) == repeat_item(e.path@, 0nat).push(e.path@));
            assert(tail[0] == e.path@);
        }
        assert forall|a: int, b: int| 0 <= a < b < whole.len() implies whole[a] != whole[b] by {
            if b < front.len() {
                assert(whole[a] == front[a] && whole[b] == front[b]);
            } else if a >= front.len() {
                assert(false);
            } else {
                assert(whole[b] == tail[b - front.len()]);
                assert(whole[b] == e.path@);
                assert(whole[a] == front[a]);
                if whole[a] == e.path@ {
                    assert(front.contains(front[a]));
                    lemma_selected_sources(prefix, types, pats, front[a]);
                    let k = choose|k: int|
                        {
                            &&& 0 <= k < prefix.len()
                            &&& (#[trigger] prefix[k]).path@ == front[a]
                            &&& type_matches(prefix[k].kind, types)
                        };
                    assert(entries[k].path@ == entries[entries.len() - 1].path@);
                    assert(false);
                }
            }
        }
    }
}

/// Freedom from duplicates survives reordering: any rearrangement with
/// the same multiset of paths, such as the sorted output, has none
/// either.
pub proof fn lemma_no_duplicates_carried_by_multiset(a: Seq<Seq<u8>>, b: Seq<Seq<u8>>)
    requires
        a.to_multiset() == b.to_multiset(),
        a.no_duplicates(),
    ensures
        b.no_duplicates(),
{
    a.lemma_multiset_has_no_duplicates();
    b.lemma_multiset_has_no_duplicates_conv();
}

/// The finder's finished configuration: root paths, compiled name
/// patterns, accepted entry kinds.
pub struct Config {
    pub paths: Vec<String>,
    pub names: Vec<NamePattern>,
    pub entry_types: Vec<EntryType>,
}

} // verus!
