//! The watchlist itself: adding, removing and reordering symbols, the persisted view
//! preferences, the display orders, and the day's breadth across the list.
use vstd::prelude::*;
use crate::symbols::views;
use crate::text::{lemma_lex_irreflexive, lemma_lex_total, lemma_lex_transitive, lex_lt, owned, str_eq};

verus! {

/// How the watchlist is ordered. `Manual` is the drag-reordered list the user owns; the other
/// two are views over it.
#[derive(Clone, Copy, PartialEq, Eq, Debug, Structural)]
pub enum Sort {
    Manual,
    Name,
    /// Biggest gainer first.
    Change,
}

impl Sort {
    /// The key a sort order is persisted under.
    pub open spec fn key_of(self) -> Seq<char> {
        match self {
            Sort::Manual => "manual"@,
            Sort::Name => "name"@,
            Sort::Change => "change"@,
        }
    }

    pub fn key(self) -> (r: &'static str)
        ensures
            r@ == self.key_of(),
    {
        match self {
            Sort::Manual => "manual",
            Sort::Name => "name",
            Sort::Change => "change",
        }
    }

    /// The order a persisted key names; anything unknown is `Manual`.
    pub open spec fn from_key_of(s: Seq<char>) -> Sort {
        if s == "manual"@ {
            Sort::Manual
        } else if s == "name"@ {
            Sort::Name
        } else if s == "change"@ {
            Sort::Change
        } else {
            Sort::Manual
        }
    }

    pub fn from_key(s: &str) -> (r: Sort)
        ensures
            r == Sort::from_key_of(s@),
    {
        if str_eq(s, "manual") {
            Sort::Manual
        } else if str_eq(s, "name") {
            Sort::Name
        } else if str_eq(s, "change") {
            Sort::Change
        } else {
            Sort::Manual
        }
    }

    /// The position in the picker's segments: manual, name, change.
    pub open spec fn index_of(self) -> int {
        match self {
            Sort::Manual => 0,
            Sort::Name => 1,
            Sort::Change => 2,
        }
    }

    pub fn index(self) -> (r: usize)
        ensures
            r == self.index_of(),
    {
        match self {
            Sort::Manual => 0,
            Sort::Name => 1,
            Sort::Change => 2,
        }
    }

    /// The order at picker position `ix`, the last one for a position past the end.
    pub fn from_index(ix: usize) -> (r: Sort)
        ensures
            r.index_of() == if ix < 3 {
                ix as int
            } else {
                2
            },
    {
        if ix == 0 {
            Sort::Manual
        } else if ix == 1 {
            Sort::Name
        } else {
            Sort::Change
        }
    }
}

/// What the change chip shows.
#[derive(Clone, Copy, PartialEq, Eq, Debug, Structural)]
pub enum ChipMode {
    /// `+1.24 (0.62%)`: absolute move and percentage together.
    Both,
    /// `+0.62%`: percentage alone.
    Percent,
    /// `+1.24`: the move in the instrument's own units.
    Absolute,
}

impl ChipMode {
    pub open spec fn key_of(self) -> Seq<char> {
        match self {
            ChipMode::Both => "both"@,
            ChipMode::Percent => "percent"@,
            ChipMode::Absolute => "absolute"@,
        }
    }

    /// The key a chip mode is persisted under.
    pub fn key(self) -> (r: &'static str)
        ensures
            r@ == self.key_of(),
    {
        match self {
            ChipMode::Both => "both",
            ChipMode::Percent => "percent",
            ChipMode::Absolute => "absolute",
        }
    }

    pub open spec fn next_of(self) -> ChipMode {
        match self {
            ChipMode::Both => ChipMode::Percent,
            ChipMode::Percent => ChipMode::Absolute,
            ChipMode::Absolute => ChipMode::Both,
        }
    }

    /// The order tapping walks: the fullest reading first, then the two narrow ones.
    pub fn next(self) -> (r: ChipMode)
        ensures
            r == self.next_of(),
    {
        match self {
            ChipMode::Both => ChipMode::Percent,
            ChipMode::Percent => ChipMode::Absolute,
            ChipMode::Absolute => ChipMode::Both,
        }
    }

    pub open spec fn from_key_of(s: Seq<char>) -> ChipMode {
        if s == "percent"@ {
            ChipMode::Percent
        } else if s == "absolute"@ {
            ChipMode::Absolute
        } else {
            ChipMode::Both
        }
    }

    /// The mode a persisted key names; anything unknown is `Both`.
    pub fn from_key(s: &str) -> (r: ChipMode)
        ensures
            r == ChipMode::from_key_of(s@),
    {
        if str_eq(s, "percent") {
            ChipMode::Percent
        } else if str_eq(s, "absolute") {
            ChipMode::Absolute
        } else {
            ChipMode::Both
        }
    }
}

/// The sort order a launch starts with, from the saved key (`None` when never saved).
pub fn seed_sort(saved: Option<&str>) -> (r: Sort)
    ensures
        r == match saved {
            Some(s) => Sort::from_key_of(s@),
            None => Sort::Manual,
        },
{
    match saved {
        Some(s) => Sort::from_key(s),
        None => Sort::Manual,
    }
}

/// The chip mode a launch starts with, from the saved key (`None` when never saved).
pub fn seed_chip_mode(saved: Option<&str>) -> (r: ChipMode)
    ensures
        r == match saved {
            Some(s) => ChipMode::from_key_of(s@),
            None => ChipMode::Both,
        },
{
    match saved {
        Some(s) => ChipMode::from_key(s),
        None => ChipMode::Both,
    }
}

/// The stored form of the overlay preference.
pub fn overlay_key(on: bool) -> (r: &'static str)
    ensures
        r@ == if on {
            "1"@
        } else {
            "0"@
        },
{
    if on {
        "1"
    } else {
        "0"
    }
}

/// Whether the detail chart starts with its moving-average overlays: on unless the saved
/// value is exactly `0`.
pub fn seed_overlay(saved: Option<&str>) -> (r: bool)
    ensures
        r == match saved {
            Some(s) => s@ != "0"@,
            None => true,
        },
{
    match saved {
        Some(s) => !str_eq(s, "0"),
        None => true,
    }
}

/// Tapping a chip three times brings every chip back to what it showed.
pub proof fn lemma_chip_cycle(m: ChipMode)
    ensures
        m.next_of().next_of().next_of() == m,
        m.next_of() != m,
{
}

/// A persisted view preference reads back as what was persisted: the sort order, the chip
/// mode and the overlay switch each survive a save and the next launch's load.
pub proof fn lemma_preferences_round_trip(s: Sort, m: ChipMode, on: bool)
    ensures
        Sort::from_key_of(s.key_of()) == s,
        ChipMode::from_key_of(m.key_of()) == m,
        (if on {
            "1"@
        } else {
            "0"@
        }) != "0"@ <==> on,
{
    reveal_strlit("manual");
    reveal_strlit("name");
    reveal_strlit("change");
    reveal_strlit("both");
    reveal_strlit("percent");
    reveal_strlit("absolute");
    reveal_strlit("1");
    reveal_strlit("0");
    assert("manual"@ != "name"@ && "manual"@ != "change"@ && "name"@ != "change"@) by {
        assert("manual"@.len() != "name"@.len());
        assert("manual"@[0] != "change"@[0]);
        assert("name"@[0] != "change"@[0]);
    }
    assert("both"@ != "percent"@ && "both"@ != "absolute"@ && "percent"@ != "absolute"@) by {
        assert("both"@.len() != "percent"@.len());
        assert("both"@.len() != "absolute"@.len());
        assert("percent"@.len() != "absolute"@.len());
    }
    assert("1"@ != "0"@) by {
        assert("1"@[0] != "0"@[0]);
    }
}

/// The watchlist `v` once `s` is tracked: unchanged when it already is, else with `s` last.
pub open spec fn with_symbol(v: Seq<Seq<char>>, s: Seq<char>) -> Seq<Seq<char>> {
    if v.contains(s) {
        v
    } else {
        v.push(s)
    }
}

/// Add `symbol` unless it is already tracked; `true` when it was added. Adding is idempotent.
pub fn add(list: &mut Vec<String>, symbol: &str) -> (r: bool)
    ensures
        r == !views(old(list)@).contains(symbol@),
        views(final(list)@) == with_symbol(views(old(list)@), symbol@),
        !r ==> final(list)@ == old(list)@,
{
    let s = owned(symbol);
    for i in 0..list.len()
        invariant
            s@ == symbol@,
            forall|j: int| 0 <= j < i ==> list@[j]@ != symbol@,
    {
        if list[i] == s {
            assert(views(list@)[i as int] == symbol@);
            return false;
        }
    }
    assert(!views(list@).contains(symbol@)) by {
        if views(list@).contains(symbol@) {
            let j = choose|j: int| 0 <= j < views(list@).len() && views(list@)[j] == symbol@;
            assert(list@[j]@ == symbol@);
        }
    }
    let ghost before = list@;
    list.push(s);
    assert(views(list@) =~= views(before).push(symbol@));
    true
}

/// Is `symbol` on the watchlist?
pub fn is_tracked(list: &Vec<String>, symbol: &str) -> (r: bool)
    ensures
        r == views(list@).contains(symbol@),
{
    let s = owned(symbol);
    for i in 0..list.len()
        invariant
            s@ == symbol@,
            forall|j: int| 0 <= j < i ==> list@[j]@ != symbol@,
    {
        if list[i] == s {
            assert(views(list@)[i as int] == symbol@);
            return true;
        }
    }
    assert(!views(list@).contains(symbol@)) by {
        if views(list@).contains(symbol@) {
            let j = choose|j: int| 0 <= j < views(list@).len() && views(list@)[j] == symbol@;
            assert(list@[j]@ == symbol@);
        }
    }
    false
}

/// What adding a typed ticker came to.
#[derive(Clone, Copy, PartialEq, Eq, Debug, Structural)]
pub enum AddOutcome {
    /// The ticker is now tracked.
    Added,
    /// It was tracked already; nothing changed.
    Exists,
    /// Nothing was typed but white space; nothing changed.
    Empty,
}

/// Add what the user typed: normalized into a ticker first; an empty ticker adds nothing.
pub fn add_typed(list: &mut Vec<String>, typed: &str) -> (r: AddOutcome)
    ensures
        ({
            let t = crate::symbols::normalized(typed@);
            &&& t.len() == 0 ==> r == AddOutcome::Empty && final(list)@ == old(list)@
            &&& t.len() > 0 && views(old(list)@).contains(t) ==> r == AddOutcome::Exists && final(list)@ == old(list)@
            &&& t.len() > 0 && !views(old(list)@).contains(t) ==> r == AddOutcome::Added && views(final(list)@) == views(old(list)@).push(t)
        }),
{
    let symbol = crate::symbols::normalize(typed);
    if symbol.as_str().is_empty() {
        return AddOutcome::Empty;
    }
    if self::add(list, symbol.as_str()) {
        AddOutcome::Added
    } else {
        AddOutcome::Exists
    }
}

/// The entries of `v` that are not `x`, in order.
pub open spec fn without(v: Seq<Seq<char>>, x: Seq<char>) -> Seq<Seq<char>>
    decreases v.len(),
{
    if v.len() == 0 {
        v
    } else if v.last() == x {
        without(v.drop_last(), x)
    } else {
        without(v.drop_last(), x).push(v.last())
    }
}

/// Stop tracking `symbol`: every entry spelled that way leaves, the rest keep their order.
pub fn remove(list: &mut Vec<String>, symbol: &str)
    ensures
        views(final(list)@) == without(views(old(list)@), symbol@),
{
    let s = owned(symbol);
    let mut kept: Vec<String> = Vec::new();
    let ghost all = views(list@);
    for i in 0..list.len()
        invariant
            s@ == symbol@,
            all == views(list@),
            views(kept@) == without(all.take(i as int), symbol@),
    {
        assert(all.take(i + 1).drop_last() =~= all.take(i as int));
        assert(all.take(i + 1).last() == list@[i as int]@);
        if list[i] != s {
            let ghost before = kept@;
            kept.push(list[i].clone());
            assert(views(kept@) =~= views(before).push(list@[i as int]@));
        }
    }
    assert(all.take(list.len() as int) =~= all);
    *list = kept;
}

/// Drag-to-reorder: the entry at `from` now sits at `to`. Positions outside the list leave
/// it as it is; `true` when it moved.
pub fn move_symbol(list: &mut Vec<String>, from: usize, to: usize) -> (r: bool)
    ensures
        r == (from < old(list)@.len() && to < old(list)@.len()),
        r ==> final(list)@ == old(list)@.remove(from as int).insert(to as int, old(list)@[from as int]),
        !r ==> final(list)@ == old(list)@,
{
    if from < list.len() && to < list.len() {
        let s = list.remove(from);
        list.insert(to, s);
        true
    } else {
        false
    }
}

/// Moving a symbol keeps the watchlist's contents: the same symbols, each as often, with the
/// moved one at its new place and the others in their old order around it.
pub proof fn lemma_move_keeps_symbols(v: Seq<String>, from: int, to: int)
    requires
        0 <= from < v.len(),
        0 <= to < v.len(),
    ensures
        ({
            let w = v.remove(from).insert(to, v[from]);
            &&& w.len() == v.len()
            &&& w[to] == v[from]
            &&& w.to_multiset() == v.to_multiset()
        }),
{
    broadcast use vstd::multiset::group_multiset_axioms;
    let u = v.remove(from);
    let w = u.insert(to, v[from]);
    vstd::seq_lib::to_multiset_remove(v, from);
    vstd::seq_lib::to_multiset_insert(u, to, v[from]);
    v.to_multiset_ensures();
    assert(v.contains(v[from]));
    assert(w.to_multiset() =~= v.to_multiset());
}

/// Open a symbol on a navigation stack: pushed, unless it is already the page on top, so the
/// back button never lands on the same detail again.
pub fn push_symbol(path: &mut Vec<String>, symbol: &str)
    ensures
        if old(path)@.len() > 0 && old(path)@.last()@ == symbol@ {
            final(path)@ == old(path)@
        } else {
            views(final(path)@) == views(old(path)@).push(symbol@)
        },
{
    let s = owned(symbol);
    let n = path.len();
    if n > 0 && path[n - 1] == s {
        return;
    }
    let ghost before = path@;
    path.push(s);
    assert(views(path@) =~= views(before).push(symbol@));
}

/// Does entry `a` of the watchlist come before entry `b` in display order `order`? `names`
/// are the symbols and `moves[i]` the day's move of symbol `i` (`None` while it loads), as a
/// key that orders the same way the moves do. Entries that tie keep their places.
pub open spec fn before(order: Sort, names: Seq<Seq<char>>, moves: Seq<Option<i64>>, a: int, b: int) -> bool {
    match order {
        Sort::Manual => a < b,
        Sort::Name => lex_lt(names[a], names[b]) || (names[a] == names[b] && a < b),
        Sort::Change => match (moves[a], moves[b]) {
            (Some(x), Some(y)) => x > y || (x == y && a < b),
            (Some(_), None) => true,
            (None, Some(_)) => false,
            (None, None) => lex_lt(names[a], names[b]) || (names[a] == names[b] && a < b),
        },
    }
}

/// `p` lists every entry of a watchlist of `names.len()` symbols once, in display order.
pub open spec fn is_display_order(order: Sort, names: Seq<Seq<char>>, moves: Seq<Option<i64>>, p: Seq<int>) -> bool {
    &&& p.len() == names.len()
    &&& forall|k: int| 0 <= k < p.len() ==> 0 <= #[trigger] p[k] < names.len()
    &&& forall|j: int| 0 <= j < names.len() ==> #[trigger] p.contains(j)
    &&& forall|k: int, l: int| 0 <= k < l < p.len() ==> before(order, names, moves, #[trigger] p[k], #[trigger] p[l])
}

proof fn lemma_before_total(order: Sort, names: Seq<Seq<char>>, moves: Seq<Option<i64>>, a: int, b: int)
    ensures
        a != b ==> before(order, names, moves, a, b) || before(order, names, moves, b, a),
        !(before(order, names, moves, a, b) && before(order, names, moves, b, a)),
        !before(order, names, moves, a, a),
{
    lemma_lex_total(names[a], names[b]);
    lemma_lex_irreflexive(names[a]);
}

proof fn lemma_before_transitive(order: Sort, names: Seq<Seq<char>>, moves: Seq<Option<i64>>, a: int, b: int, c: int)
    requires
        before(order, names, moves, a, b),
        before(order, names, moves, b, c),
    ensures
        before(order, names, moves, a, c),
{
    if order == Sort::Name || (order == Sort::Change && moves[a] is None && moves[b] is None && moves[c] is None) {
        if lex_lt(names[a], names[b]) && lex_lt(names[b], names[c]) {
            lemma_lex_transitive(names[a], names[b], names[c]);
        }
    }
}

/// Is `a` before `b` in code-point lexicographic order?
fn lex_less(a: &[char], b: &[char]) -> (r: bool)
    ensures
        r == lex_lt(a@, b@),
{
    let mut i: usize = 0;
    proof {
        assert(a@.skip(0) =~= a@);
        assert(b@.skip(0) =~= b@);
    }
    while i < a.len() && i < b.len() && a[i] == b[i]
        invariant
            0 <= i <= a.len(),
            i <= b.len(),
            lex_lt(a@, b@) == lex_lt(a@.skip(i as int), b@.skip(i as int)),
        decreases a.len() - i,
    {
        proof {
            let x = a@.skip(i as int);
            let y = b@.skip(i as int);
            assert(x.drop_first() =~= a@.skip(i + 1));
            assert(y.drop_first() =~= b@.skip(i + 1));
        }
        i = i + 1;
    }
    if i == a.len() {
        i < b.len()
    } else if i == b.len() {
        false
    } else {
        a[i] < b[i]
    }
}

fn precedes(order: Sort, names: &Vec<Vec<char>>, moves: &Vec<Option<i64>>, a: usize, b: usize) -> (r: bool)
    requires
        a < names.len(),
        b < names.len(),
        moves.len() == names.len(),
    ensures
        r == before(order, names@.map_values(|v: Vec<char>| v@), moves@, a as int, b as int),
{
    let ghost ns = names@.map_values(|v: Vec<char>| v@);
    let by_name = lex_less(names[a].as_slice(), names[b].as_slice()) || (crate::text::same_chars(
        names[a].as_slice(),
        names[b].as_slice(),
    ) && a < b);
    assert(by_name == (lex_lt(ns[a as int], ns[b as int]) || (ns[a as int] == ns[b as int] && a < b)));
    match order {
        Sort::Manual => a < b,
        Sort::Name => by_name,
        Sort::Change => match (moves[a], moves[b]) {
            (Some(x), Some(y)) => x > y || (x == y && a < b),
            (Some(_), None) => true,
            (None, Some(_)) => false,
            (None, None) => by_name,
        },
    }
}

/// The positions of the watchlist's entries in display order.
pub fn display_order(list: &Vec<String>, order: Sort, moves: &Vec<Option<i64>>) -> (p: Vec<usize>)
    requires
        moves.len() == list.len(),
    ensures
        is_display_order(order, views(list@), moves@, p@.map_values(|k: usize| k as int)),
{
    let n = list.len();
    let mut names: Vec<Vec<char>> = Vec::new();
    for i in 0..n
        invariant
            n == list.len(),
            names@.len() == i,
            forall|j: int| 0 <= j < i ==> #[trigger] names@[j]@ == list@[j]@,
    {
        names.push(crate::text::chars_of(list[i].as_str()));
    }
    let ghost ns = views(list@);
    assert(names@.map_values(|v: Vec<char>| v@) =~= ns);
    let mut perm: Vec<usize> = Vec::new();
    for i in 0..n
        invariant
            n == list.len(),
            n == names.len(),
            n == moves.len(),
            ns == views(list@),
            names@.map_values(|v: Vec<char>| v@) == ns,
            perm@.len() == i,
            forall|k: int| 0 <= k < i ==> #[trigger] perm@[k] < i,
            forall|j: int| 0 <= j < i ==> #[trigger] perm@.contains(j as usize),
            forall|k: int, l: int| 0 <= k < l < i ==> before(order, ns, moves@, #[trigger] perm@[k] as int, #[trigger] perm@[l] as int),
    {
        let mut pos: usize = i;
        while pos > 0 && precedes(order, &names, moves, i, perm[pos - 1])
            invariant
                n == names.len(),
                n == moves.len(),
                i < n,
                names@.map_values(|v: Vec<char>| v@) == ns,
                perm@.len() == i,
                forall|k: int| 0 <= k < i ==> #[trigger] perm@[k] < i,
                0 <= pos <= i,
                forall|k: int| pos <= k < i ==> before(order, ns, moves@, i as int, #[trigger] perm@[k] as int),
            decreases pos,
        {
            pos = pos - 1;
        }
        let ghost old_perm = perm@;
        proof {
            if pos > 0 {
                let q = old_perm[pos - 1] as int;
                lemma_before_total(order, ns, moves@, i as int, q);
            }
        }
        perm.insert(pos, i);
        proof {
            let np = perm@;
            assert forall|k: int| 0 <= k < i + 1 implies #[trigger] np[k] < i + 1 by {
                if k < pos {
                    assert(np[k] == old_perm[k]);
                } else if k > pos {
                    assert(np[k] == old_perm[k - 1]);
                }
            }
            assert forall|j: int| 0 <= j < i + 1 implies #[trigger] np.contains(j as usize) by {
                if j == i {
                    assert(np[pos as int] == i);
                } else {
                    assert(old_perm.contains(j as usize));
                    let k = choose|k: int| 0 <= k < old_perm.len() && old_perm[k] == j as usize;
                    if k < pos {
                        assert(np[k] == old_perm[k]);
                    } else {
                        assert(np[k + 1] == old_perm[k]);
                    }
                }
            }
            assert forall|k: int, l: int| 0 <= k < l < i + 1 implies before(order, ns, moves@, #[trigger] np[k] as int, #[trigger] np[l] as int) by {
                if l < pos {
                    assert(np[k] == old_perm[k] && np[l] == old_perm[l]);
                } else if l == pos {
                    assert(np[l] == i);
                    assert(np[k] == old_perm[k]);
                    let q = old_perm[pos - 1] as int;
                    assert(before(order, ns, moves@, q, i as int));
                    if k < pos - 1 {
                        assert(before(order, ns, moves@, old_perm[k] as int, q));
                        lemma_before_transitive(order, ns, moves@, old_perm[k] as int, q, i as int);
                    }
                } else if k == pos {
                    assert(np[k] == i);
                    assert(np[l] == old_perm[l - 1]);
                } else if k > pos {
                    assert(np[k] == old_perm[k - 1] && np[l] == old_perm[l - 1]);
                } else {
                    assert(np[k] == old_perm[k] && np[l] == old_perm[l - 1]);
                }
            }
        }
    }
    let ghost pm = perm@.map_values(|k: usize| k as int);
    assert forall|k: int| 0 <= k < pm.len() implies 0 <= #[trigger] pm[k] < ns.len() by {
        assert(pm[k] == perm@[k] as int);
    }
    assert forall|k: int, l: int| 0 <= k < l < pm.len() implies before(order, ns, moves@, #[trigger] pm[k], #[trigger] pm[l]) by {
        assert(pm[k] == perm@[k] as int && pm[l] == perm@[l] as int);
    }
    assert forall|j: int| 0 <= j < ns.len() implies #[trigger] pm.contains(j) by {
        assert(perm@.contains(j as usize));
        let k = choose|k: int| 0 <= k < perm@.len() && perm@[k] == j as usize;
        assert(pm[k] == j);
    }
    perm
}

/// The watchlist in display order: the user's own arrangement, or a view sorted by name or by
/// today's move. `moves[i]` is the day's move of `list[i]` as a key that orders as the moves
/// do, `None` while its quote loads; symbols still loading sort last under `Change`, by name.
/// Under every order the result holds each entry once, entries that tie keep their places,
/// and `Manual` is the list as it stands.
pub fn sorted_symbols(list: Vec<String>, order: Sort, moves: &Vec<Option<i64>>) -> (r: Vec<String>)
    requires
        moves.len() == list.len(),
    ensures
        exists|p: Seq<int>|
            is_display_order(order, views(list@), moves@, p) && views(r@) == Seq::new(
                p.len(),
                |k: int| views(list@)[p[k]],
            ),
{
    let perm = display_order(&list, order, moves);
    let ghost p = perm@.map_values(|k: usize| k as int);
    let ghost ns = views(list@);
    let mut out: Vec<String> = Vec::new();
    for k in 0..perm.len()
        invariant
            p == perm@.map_values(|k: usize| k as int),
            ns == views(list@),
            is_display_order(order, ns, moves@, p),
            out@.len() == k,
            forall|j: int| 0 <= j < k ==> #[trigger] out@[j]@ == ns[p[j]],
    {
        assert(p[k as int] == perm@[k as int] as int);
        assert(0 <= p[k as int] < ns.len());
        out.push(list[perm[k]].clone());
    }
    assert(views(out@) =~= Seq::new(p.len(), |k: int| ns[p[k]]));
    out
}

proof fn lemma_ordered_unique(order: Sort, names: Seq<Seq<char>>, moves: Seq<Option<i64>>, p: Seq<int>, q: Seq<int>)
    requires
        p.len() == q.len(),
        forall|k: int| 0 <= k < p.len() ==> #[trigger] q.contains(p[k]),
        forall|k: int| 0 <= k < q.len() ==> #[trigger] p.contains(q[k]),
        forall|k: int, l: int| 0 <= k < l < p.len() ==> before(order, names, moves, #[trigger] p[k], #[trigger] p[l]),
        forall|k: int, l: int| 0 <= k < l < q.len() ==> before(order, names, moves, #[trigger] q[k], #[trigger] q[l]),
    ensures
        p == q,
    decreases p.len(),
{
    if p.len() > 0 {
        assert(q.contains(p[0]));
        assert(p.contains(q[0]));
        let m = choose|m: int| 0 <= m < q.len() && q[m] == p[0];
        let l = choose|l: int| 0 <= l < p.len() && p[l] == q[0];
        if p[0] != q[0] {
            assert(m != 0 && l != 0);
            assert(before(order, names, moves, q[0], q[m]));
            assert(before(order, names, moves, p[0], p[l]));
            lemma_before_total(order, names, moves, p[0], q[0]);
            assert(false);
        }
        let pt = p.drop_first();
        let qt = q.drop_first();
        assert forall|k: int| 0 <= k < pt.len() implies #[trigger] qt.contains(pt[k]) by {
            let x = pt[k];
            assert(x == p[k + 1]);
            assert(q.contains(p[k + 1]));
            let j = choose|j: int| 0 <= j < q.len() && q[j] == x;
            lemma_before_total(order, names, moves, p[0], p[0]);
            assert(before(order, names, moves, p[0], p[k + 1]));
            assert(j != 0);
            assert(qt[j - 1] == x);
        }
        assert forall|k: int| 0 <= k < qt.len() implies #[trigger] pt.contains(qt[k]) by {
            let x = qt[k];
            assert(x == q[k + 1]);
            assert(p.contains(q[k + 1]));
            let j = choose|j: int| 0 <= j < p.len() && p[j] == x;
            lemma_before_total(order, names, moves, q[0], q[0]);
            assert(before(order, names, moves, q[0], q[k + 1]));
            assert(j != 0);
            assert(pt[j - 1] == x);
        }
        assert forall|k: int, l: int| 0 <= k < l < pt.len() implies before(order, names, moves, #[trigger] pt[k], #[trigger] pt[l]) by {
            assert(pt[k] == p[k + 1] && pt[l] == p[l + 1]);
        }
        assert forall|k: int, l: int| 0 <= k < l < qt.len() implies before(order, names, moves, #[trigger] qt[k], #[trigger] qt[l]) by {
            assert(qt[k] == q[k + 1] && qt[l] == q[l + 1]);
        }
        lemma_ordered_unique(order, names, moves, pt, qt);
        assert forall|i: int| 0 <= i < p.len() implies p[i] == q[i] by {
            if i > 0 {
                assert(p[i] == pt[i - 1] && q[i] == qt[i - 1]);
            }
        }
        assert(p =~= q);
    }
}

/// A display order is determined by the list, the order and the moves alone: there is one
/// arrangement that lists every entry once, in order, ties in their places, so the result
/// of [`sorted_symbols`] is pinned down.
pub proof fn lemma_display_order_unique(order: Sort, names: Seq<Seq<char>>, moves: Seq<Option<i64>>, p: Seq<int>, q: Seq<int>)
    requires
        is_display_order(order, names, moves, p),
        is_display_order(order, names, moves, q),
    ensures
        p == q,
{
    assert forall|k: int| 0 <= k < p.len() implies #[trigger] q.contains(p[k]) by {
        assert(0 <= p[k] < names.len());
    }
    assert forall|k: int| 0 <= k < q.len() implies #[trigger] p.contains(q[k]) by {
        assert(0 <= q[k] < names.len());
    }
    lemma_ordered_unique(order, names, moves, p, q);
}

/// Under the manual order the list is shown as it stands.
pub proof fn lemma_manual_is_identity(names: Seq<Seq<char>>, moves: Seq<Option<i64>>)
    ensures
        is_display_order(Sort::Manual, names, moves, Seq::new(names.len(), |k: int| k)),
{
    let p = Seq::new(names.len(), |k: int| k);
    assert forall|j: int| 0 <= j < names.len() implies #[trigger] p.contains(j) by {
        assert(p[j] == j);
    }
}

/// By today's move the list shows every loaded symbol before any still loading, the loaded
/// ones biggest move first, and the loading ones in name order: no symbol shown later has a
/// name that sorts before one shown earlier.
pub proof fn lemma_change_order_shape(names: Seq<Seq<char>>, moves: Seq<Option<i64>>, p: Seq<int>)
    requires
        moves.len() == names.len(),
        is_display_order(Sort::Change, names, moves, p),
    ensures
        forall|k: int, l: int|
            0 <= k < l < p.len() ==> {
                &&& (moves[#[trigger] p[l]] is Some ==> moves[#[trigger] p[k]] is Some)
                &&& (moves[p[k]] is Some && moves[p[l]] is Some ==> moves[p[k]]->0 >= moves[p[l]]->0)
                &&& (moves[p[k]] is None && moves[p[l]] is None ==> !lex_lt(names[p[l]], names[p[k]]))
            },
{
    assert forall|k: int, l: int| 0 <= k < l < p.len() implies {
        &&& (moves[#[trigger] p[l]] is Some ==> moves[#[trigger] p[k]] is Some)
        &&& (moves[p[k]] is Some && moves[p[l]] is Some ==> moves[p[k]]->0 >= moves[p[l]]->0)
        &&& (moves[p[k]] is None && moves[p[l]] is None ==> !lex_lt(names[p[l]], names[p[k]]))
    } by {
        assert(before(Sort::Change, names, moves, p[k], p[l]));
        lemma_lex_total(names[p[k]], names[p[l]]);
        lemma_lex_irreflexive(names[p[k]]);
    }
}

/// By name the list shows no symbol later whose name sorts before one shown earlier.
pub proof fn lemma_name_order_shape(names: Seq<Seq<char>>, moves: Seq<Option<i64>>, p: Seq<int>)
    requires
        is_display_order(Sort::Name, names, moves, p),
    ensures
        forall|k: int, l: int|
            0 <= k < l < p.len() ==> !lex_lt(names[#[trigger] p[l]], names[#[trigger] p[k]]),
{
    assert forall|k: int, l: int| 0 <= k < l < p.len() implies !lex_lt(names[#[trigger] p[l]], names[#[trigger] p[k]]) by {
        assert(before(Sort::Name, names, moves, p[k], p[l]));
        lemma_lex_total(names[p[k]], names[p[l]]);
        lemma_lex_irreflexive(names[p[k]]);
    }
}

/// Today's breadth across the watchlist: how many symbols are up (a move at or above zero),
/// how many down, and the biggest mover each way with its move key.
#[derive(Debug)]
pub struct Breadth {
    pub up: usize,
    pub down: usize,
    pub best: Option<(String, i64)>,
    pub worst: Option<(String, i64)>,
}

/// How many of `moves` are loaded with a move at or above zero.
pub open spec fn count_up(moves: Seq<Option<i64>>) -> nat
    decreases moves.len(),
{
    if moves.len() == 0 {
        0
    } else {
        count_up(moves.drop_last()) + (match moves.last() {
            Some(k) => if k >= 0 {
                1nat
            } else {
                0nat
            },
            None => 0nat,
        })
    }
}

/// How many of `moves` are loaded with a move below zero.
pub open spec fn count_down(moves: Seq<Option<i64>>) -> nat
    decreases moves.len(),
{
    if moves.len() == 0 {
        0
    } else {
        count_down(moves.drop_last()) + (match moves.last() {
            Some(k) => if k < 0 {
                1nat
            } else {
                0nat
            },
            None => 0nat,
        })
    }
}

/// Entry `i` is the first loaded one with the biggest move among the first `n`.
pub open spec fn is_first_max(moves: Seq<Option<i64>>, n: int, i: int) -> bool {
    &&& 0 <= i < n
    &&& moves[i] is Some
    &&& forall|j: int| 0 <= j < n && #[trigger] moves[j] is Some ==> moves[j]->0 <= moves[i]->0
    &&& forall|j: int| 0 <= j < i && #[trigger] moves[j] is Some ==> moves[j]->0 < moves[i]->0
}

/// Entry `i` is the first loaded one with the smallest move among the first `n`.
pub open spec fn is_first_min(moves: Seq<Option<i64>>, n: int, i: int) -> bool {
    &&& 0 <= i < n
    &&& moves[i] is Some
    &&& forall|j: int| 0 <= j < n && #[trigger] moves[j] is Some ==> moves[j]->0 >= moves[i]->0
    &&& forall|j: int| 0 <= j < i && #[trigger] moves[j] is Some ==> moves[j]->0 > moves[i]->0
}

/// Does `m` name entry `i` of the watchlist with its move?
pub open spec fn names_entry(m: Option<(String, i64)>, names: Seq<Seq<char>>, moves: Seq<Option<i64>>, i: int) -> bool {
    match m {
        Some((s, k)) => s@ == names[i] && moves[i] == Some(k),
        None => false,
    }
}

proof fn lemma_counts_step(moves: Seq<Option<i64>>, i: int)
    requires
        0 <= i < moves.len(),
    ensures
        moves.take(i + 1).drop_last() == moves.take(i),
        moves.take(i + 1).last() == moves[i],
{
    assert(moves.take(i + 1).drop_last() =~= moves.take(i));
}

/// Today's breadth over the watchlist `list`, where `moves[i]` is the day's move of `list[i]`
/// as a key that orders as the moves do (zero for no move), `None` until its quote has
/// loaded. `None` until at least one quote has loaded; the biggest mover each way is the
/// first of the list to reach that move.
pub fn breadth(list: &Vec<String>, moves: &Vec<Option<i64>>) -> (r: Option<Breadth>)
    requires
        moves.len() == list.len(),
    ensures
        r is None <==> forall|i: int| 0 <= i < moves@.len() ==> #[trigger] moves@[i] is None,
        r matches Some(b) ==> {
            &&& b.up == count_up(moves@)
            &&& b.down == count_down(moves@)
            &&& exists|i: int| is_first_max(moves@, moves@.len() as int, i) && names_entry(b.best, views(list@), moves@, i)
            &&& exists|i: int| is_first_min(moves@, moves@.len() as int, i) && names_entry(b.worst, views(list@), moves@, i)
        },
{
    let n = list.len();
    let mut up: usize = 0;
    let mut down: usize = 0;
    let mut best: Option<usize> = None;
    let mut worst: Option<usize> = None;
    for i in 0..n
        invariant
            n == list.len(),
            n == moves.len(),
            up == count_up(moves@.take(i as int)),
            down == count_down(moves@.take(i as int)),
            up + down <= i,
            best is None <==> forall|j: int| 0 <= j < i ==> #[trigger] moves@[j] is None,
            worst is None == best is None,
            best matches Some(b) ==> is_first_max(moves@, i as int, b as int),
            worst matches Some(w) ==> is_first_min(moves@, i as int, w as int),
    {
        proof {
            lemma_counts_step(moves@, i as int);
        }
        match moves[i] {
            None => {},
            Some(pct) => {
                if pct >= 0 {
                    up = up + 1;
                } else {
                    down = down + 1;
                }
                let take_best = match best {
                    None => true,
                    Some(b) => match moves[b] {
                        Some(v) => pct > v,
                        None => true,
                    },
                };
                if take_best {
                    best = Some(i);
                }
                let take_worst = match worst {
                    None => true,
                    Some(w) => match moves[w] {
                        Some(v) => pct < v,
                        None => true,
                    },
                };
                if take_worst {
                    worst = Some(i);
                }
            },
        }
    }
    assert(moves@.take(n as int) =~= moves@);
    match (best, worst) {
        (Some(b), Some(w)) => {
            let res = Breadth {
                up,
                down,
                best: Some((list[b].clone(), moves[b].unwrap())),
                worst: Some((list[w].clone(), moves[w].unwrap())),
            };
            proof {
                assert(names_entry(res.best, views(list@), moves@, b as int));
                assert(names_entry(res.worst, views(list@), moves@, w as int));
            }
            Some(res)
        },
        _ => None,
    }
}

/// Adding a symbol twice is adding it once, and afterwards it is tracked.
pub proof fn lemma_add_idempotent(v: Seq<Seq<char>>, s: Seq<char>)
    ensures
        with_symbol(with_symbol(v, s), s) == with_symbol(v, s),
        with_symbol(v, s).contains(s),
{
    if !v.contains(s) {
        assert(v.push(s)[v.len() as int] == s);
    }
}

/// After removing a symbol no entry is spelled that way, every other entry stays, and
/// removing it again changes nothing.
pub proof fn lemma_remove_leaves_none(v: Seq<Seq<char>>, x: Seq<char>)
    ensures
        !without(v, x).contains(x),
        forall|y: Seq<char>| y != x ==> (#[trigger] without(v, x).contains(y) <==> v.contains(y)),
        without(without(v, x), x) == without(v, x),
    decreases v.len(),
{
    if v.len() > 0 {
        lemma_remove_leaves_none(v.drop_last(), x);
        let w = without(v.drop_last(), x);
        if v.last() == x {
            assert forall|y: Seq<char>| y != x implies (without(v, x).contains(y) <==> v.contains(y)) by {
                if v.contains(y) {
                    let k = choose|k: int| 0 <= k < v.len() && v[k] == y;
                    assert(v.drop_last()[k] == y);
                }
                if v.drop_last().contains(y) {
                    let k = choose|k: int| 0 <= k < v.drop_last().len() && v.drop_last()[k] == y;
                    assert(v[k] == y);
                }
            }
        } else {
            let wp = w.push(v.last());
            assert(!wp.contains(x)) by {
                if wp.contains(x) {
                    let k = choose|k: int| 0 <= k < wp.len() && wp[k] == x;
                    if k < w.len() {
                        assert(w[k] == x);
                    }
                }
            }
            assert forall|y: Seq<char>| y != x implies (wp.contains(y) <==> v.contains(y)) by {
                if v.contains(y) {
                    let k = choose|k: int| 0 <= k < v.len() && v[k] == y;
                    if k < v.len() - 1 {
                        assert(v.drop_last()[k] == y);
                        assert(v.drop_last().contains(y));
                        assert(without(v.drop_last(), x).contains(y));
                        assert(w.contains(y));
                        let j = choose|j: int| 0 <= j < w.len() && w[j] == y;
                        assert(wp[j] == y);
                    } else {
                        assert(wp[w.len() as int] == y);
                    }
                }
                if wp.contains(y) {
                    let k = choose|k: int| 0 <= k < wp.len() && wp[k] == y;
                    if k < w.len() {
                        assert(w[k] == y);
                        assert(without(v.drop_last(), x).contains(y));
                        assert(v.drop_last().contains(y));
                        let j = choose|j: int| 0 <= j < v.drop_last().len() && v.drop_last()[j] == y;
                        assert(v[j] == y);
                    } else {
                        assert(v[v.len() - 1] == y);
                    }
                }
            }
            assert(wp.drop_last() =~= w);
        }
    }
}

/// Every loaded quote counts once, as up or as down.
pub proof fn lemma_breadth_counts_loaded(moves: Seq<Option<i64>>)
    ensures
        count_up(moves) + count_down(moves) == count_loaded(moves),
    decreases moves.len(),
{
    if moves.len() > 0 {
        lemma_breadth_counts_loaded(moves.drop_last());
    }
}

/// How many of `moves` are loaded.
pub open spec fn count_loaded(moves: Seq<Option<i64>>) -> nat
    decreases moves.len(),
{
    if moves.len() == 0 {
        0
    } else {
        count_loaded(moves.drop_last()) + (if moves.last() is Some {
            1nat
        } else {
            0nat
        })
    }
}

} // verus!
