//! The module reference graph of one crate: its modules, the references
//! between them, and their textual forms (interchange text and Graphviz).

use vstd::prelude::*;
use crate::text::{
    Rank, text_lt, lemma_text_lt_order, text_rank, text_eq, has_prefix, chars_of,
    starts_with_chars, push_text, push_slice, push_debug, debug_quoted, string_of, hex_of,
    push_hex,
};

verus! {

// ---------------------------------------------------------------------------
// Edges
// ---------------------------------------------------------------------------

/// One resolved reference from module `from` to a symbol defined in `to`.
#[derive(Debug, PartialEq, Eq, PartialOrd, Ord)]
pub struct Edge {
    pub from: String,
    pub to: String,
    pub symbol: String,
    pub location: String,
    pub kind: String,
}

/// The characters of an edge's fields.
pub struct EdgeView {
    pub from: Seq<char>,
    pub to: Seq<char>,
    pub symbol: Seq<char>,
    pub location: Seq<char>,
    pub kind: Seq<char>,
}

impl View for Edge {
    type V = EdgeView;

    open spec fn view(&self) -> EdgeView {
        EdgeView {
            from: self.from@,
            to: self.to@,
            symbol: self.symbol@,
            location: self.location@,
            kind: self.kind@,
        }
    }
}

impl Clone for Edge {
    fn clone(&self) -> (r: Self)
        ensures
            r@ == self@,
    {
        Edge {
            from: self.from.clone(),
            to: self.to.clone(),
            symbol: self.symbol.clone(),
            location: self.location.clone(),
            kind: self.kind.clone(),
        }
    }
}

/// The order of edges: field by field, each in string order.
pub open spec fn edge_lt(a: EdgeView, b: EdgeView) -> bool {
    if a.from != b.from {
        text_lt(a.from, b.from)
    } else if a.to != b.to {
        text_lt(a.to, b.to)
    } else if a.symbol != b.symbol {
        text_lt(a.symbol, b.symbol)
    } else if a.location != b.location {
        text_lt(a.location, b.location)
    } else {
        text_lt(a.kind, b.kind)
    }
}

/// `edge_lt` is a strict total order.
pub proof fn lemma_edge_lt_order(a: EdgeView, b: EdgeView, c: EdgeView)
    ensures
        !edge_lt(a, a),
        edge_lt(a, b) ==> !edge_lt(b, a),
        edge_lt(a, b) && edge_lt(b, c) ==> edge_lt(a, c),
        a != b ==> edge_lt(a, b) || edge_lt(b, a),
{
    lemma_text_lt_order(a.from, b.from, c.from);
    lemma_text_lt_order(a.to, b.to, c.to);
    lemma_text_lt_order(a.symbol, b.symbol, c.symbol);
    lemma_text_lt_order(a.location, b.location, c.location);
    lemma_text_lt_order(a.kind, b.kind, c.kind);
    lemma_text_lt_order(a.from, c.from, b.from);
    lemma_text_lt_order(a.to, c.to, b.to);
    lemma_text_lt_order(a.symbol, c.symbol, b.symbol);
    lemma_text_lt_order(a.location, c.location, b.location);
    lemma_text_lt_order(a.kind, c.kind, b.kind);
    lemma_text_lt_order(b.from, a.from, c.from);
    lemma_text_lt_order(b.to, a.to, c.to);
    lemma_text_lt_order(b.symbol, a.symbol, c.symbol);
    lemma_text_lt_order(b.location, a.location, c.location);
    lemma_text_lt_order(b.kind, a.kind, c.kind);
}

fn edge_rank(a: &Edge, b: &Edge) -> (r: Rank)
    ensures
        r == Rank::Same <==> a@ == b@,
        r == Rank::Less <==> edge_lt(a@, b@),
        r == Rank::Greater <==> edge_lt(b@, a@),
{
    proof {
        lemma_edge_lt_order(a@, b@, b@);
    }
    let r = text_rank(a.from.as_str(), b.from.as_str());
    match r {
        Rank::Same => {},
        _ => return r,
    }
    let r = text_rank(a.to.as_str(), b.to.as_str());
    match r {
        Rank::Same => {},
        _ => return r,
    }
    let r = text_rank(a.symbol.as_str(), b.symbol.as_str());
    match r {
        Rank::Same => {},
        _ => return r,
    }
    let r = text_rank(a.location.as_str(), b.location.as_str());
    match r {
        Rank::Same => {},
        _ => return r,
    }
    text_rank(a.kind.as_str(), b.kind.as_str())
}

// ---------------------------------------------------------------------------
// Ordered sets
// ---------------------------------------------------------------------------

/// Appending to a sequence adds the element to its set.
pub proof fn lemma_push_to_set<A>(s: Seq<A>, x: A)
    ensures
        s.push(x).to_set() == s.to_set().insert(x),
{
    assert forall|y| s.push(x).to_set().contains(y) <==> s.to_set().insert(x).contains(y) by {
        if s.push(x).to_set().contains(y) {
            let k = choose|k: int| 0 <= k < s.push(x).len() && s.push(x)[k] == y;
            if k < s.len() {
                assert(s[k] == y);
            }
        }
        if s.to_set().contains(y) {
            let k = choose|k: int| 0 <= k < s.len() && s[k] == y;
            assert(s.push(x)[k] == y);
        }
        if y == x {
            assert(s.push(x)[s.len() as int] == y);
        }
    }
    assert(s.push(x).to_set() =~= s.to_set().insert(x));
}

/// Strictly increasing in string order: sorted, each string once.
pub open spec fn texts_sorted(s: Seq<Seq<char>>) -> bool {
    forall|i: int, j: int| 0 <= i < j < s.len() ==> text_lt(#[trigger] s[i], #[trigger] s[j])
}

/// Strictly increasing in edge order: sorted, each edge once.
pub open spec fn edges_sorted(s: Seq<EdgeView>) -> bool {
    forall|i: int, j: int| 0 <= i < j < s.len() ==> edge_lt(#[trigger] s[i], #[trigger] s[j])
}

/// Two sorted sequences with the same elements are the same sequence.
pub proof fn lemma_sorted_texts_unique(a: Seq<Seq<char>>, b: Seq<Seq<char>>)
    requires
        texts_sorted(a),
        texts_sorted(b),
        a.to_set() == b.to_set(),
    ensures
        a == b,
    decreases a.len(),
{
    if a.len() == 0 {
        if b.len() > 0 {
            assert(b.to_set().contains(b[0]));
        }
    } else {
        assert(a.to_set().contains(a[0]));
        assert(b.len() > 0);
        assert(b.to_set().contains(b[0]));
        let ia = choose|i: int| 0 <= i < a.len() && a[i] == b[0];
        let ib = choose|i: int| 0 <= i < b.len() && b[i] == a[0];
        if ia > 0 {
            lemma_text_lt_order(a[0], b[0], b[0]);
            if ib > 0 {
                lemma_text_lt_order(b[0], a[0], b[0]);
            }
        }
        assert(a[0] == b[0]) by {
            if a[0] != b[0] {
                assert(ia > 0);
                assert(ib > 0);
                lemma_text_lt_order(a[0], b[0], a[0]);
            }
        }
        let ra = a.drop_first();
        let rb = b.drop_first();
        assert forall|x: Seq<char>| ra.to_set().contains(x) implies rb.to_set().contains(x) by {
            let k = choose|k: int| 0 <= k < ra.len() && ra[k] == x;
            assert(a[k + 1] == x);
            assert(a.to_set().contains(x));
            let m = choose|m: int| 0 <= m < b.len() && b[m] == x;
            lemma_text_lt_order(a[0], x, x);
            if m == 0 {
                assert(false);
            }
            assert(rb[m - 1] == x);
        }
        assert forall|x: Seq<char>| rb.to_set().contains(x) implies ra.to_set().contains(x) by {
            let k = choose|k: int| 0 <= k < rb.len() && rb[k] == x;
            assert(b[k + 1] == x);
            assert(b.to_set().contains(x));
            let m = choose|m: int| 0 <= m < a.len() && a[m] == x;
            lemma_text_lt_order(b[0], x, x);
            if m == 0 {
                assert(false);
            }
            assert(ra[m - 1] == x);
        }
        assert(ra.to_set() == rb.to_set());
        lemma_sorted_texts_unique(ra, rb);
        assert(a == seq![a[0]] + ra);
        assert(b == seq![b[0]] + rb);
    }
}

/// Two sorted edge sequences with the same elements are the same sequence.
pub proof fn lemma_sorted_edges_unique(a: Seq<EdgeView>, b: Seq<EdgeView>)
    requires
        edges_sorted(a),
        edges_sorted(b),
        a.to_set() == b.to_set(),
    ensures
        a == b,
    decreases a.len(),
{
    if a.len() == 0 {
        if b.len() > 0 {
            assert(b.to_set().contains(b[0]));
        }
    } else {
        assert(a.to_set().contains(a[0]));
        assert(b.len() > 0);
        assert(b.to_set().contains(b[0]));
        let ia = choose|i: int| 0 <= i < a.len() && a[i] == b[0];
        let ib = choose|i: int| 0 <= i < b.len() && b[i] == a[0];
        assert(a[0] == b[0]) by {
            if a[0] != b[0] {
                assert(ia > 0);
                assert(ib > 0);
                lemma_edge_lt_order(a[0], b[0], a[0]);
            }
        }
        let ra = a.drop_first();
        let rb = b.drop_first();
        assert forall|x: EdgeView| ra.to_set().contains(x) implies rb.to_set().contains(x) by {
            let k = choose|k: int| 0 <= k < ra.len() && ra[k] == x;
            assert(a[k + 1] == x);
            assert(a.to_set().contains(x));
            let m = choose|m: int| 0 <= m < b.len() && b[m] == x;
            lemma_edge_lt_order(a[0], x, x);
            if m == 0 {
                assert(false);
            }
            assert(rb[m - 1] == x);
        }
        assert forall|x: EdgeView| rb.to_set().contains(x) implies ra.to_set().contains(x) by {
            let k = choose|k: int| 0 <= k < rb.len() && rb[k] == x;
            assert(b[k + 1] == x);
            assert(b.to_set().contains(x));
            let m = choose|m: int| 0 <= m < a.len() && a[m] == x;
            lemma_edge_lt_order(b[0], x, x);
            if m == 0 {
                assert(false);
            }
            assert(ra[m - 1] == x);
        }
        assert(ra.to_set() == rb.to_set());
        lemma_sorted_edges_unique(ra, rb);
        assert(a == seq![a[0]] + ra);
        assert(b == seq![b[0]] + rb);
    }
}

/// A set of module paths, kept in string order.
#[derive(Debug, PartialEq, Eq)]
pub struct ModuleSet {
    items: Vec<String>,
}

impl View for ModuleSet {
    type V = Seq<Seq<char>>;

    closed spec fn view(&self) -> Seq<Seq<char>> {
        self.items@.map_values(|s: String| s@)
    }
}

impl ModuleSet {
    #[verifier::type_invariant]
    spec fn sorted(&self) -> bool {
        texts_sorted(self@)
    }

    /// An empty set.
    pub fn new() -> (r: Self)
        ensures
            r@ == Seq::<Seq<char>>::empty(),
    {
        let r = ModuleSet { items: Vec::new() };
        assert(r@ == Seq::<Seq<char>>::empty());
        r
    }

    /// A set of the given modules.
    pub fn from_vec(names: Vec<String>) -> (r: Self)
        ensures
            r@.to_set() == names@.map_values(|s: String| s@).to_set(),
    {
        let mut r = ModuleSet::new();
        let ghost all = names@.map_values(|s: String| s@);
        let mut i: usize = 0;
        assert(all.take(0).to_set() =~= r@.to_set());
        while i < names.len()
            invariant
                i <= names.len(),
                all == names@.map_values(|s: String| s@),
                r@.to_set() == all.take(i as int).to_set(),
            decreases names.len() - i,
        {
            let name = names[i].clone();
            r.insert(name);
            proof {
                assert(all.take(i + 1) == all.take(i as int).push(all[i as int]));
                lemma_push_to_set(all.take(i as int), all[i as int]);
            }
            i = i + 1;
        }
        assert(all.take(names.len() as int) == all);
        r
    }

    /// The number of modules.
    pub fn len(&self) -> (n: usize)
        ensures
            n == self@.len(),
            texts_sorted(self@),
    {
        proof {
            use_type_invariant(self);
        }
        self.items.len()
    }

    /// Whether there are no modules.
    pub fn is_empty(&self) -> (b: bool)
        ensures
            b == (self@.len() == 0),
    {
        self.items.len() == 0
    }

    /// The `i`-th module in string order.
    pub fn get(&self, i: usize) -> (s: &String)
        requires
            i < self@.len(),
        ensures
            s@ == self@[i as int],
    {
        &self.items[i]
    }

    /// Whether `name` is in the set.
    pub fn contains(&self, name: &str) -> (b: bool)
        ensures
            b == self@.contains(name@),
    {
        let mut i: usize = 0;
        while i < self.items.len()
            invariant
                i <= self@.len(),
                forall|k: int| 0 <= k < i ==> self@[k] != name@,
            decreases self.items.len() - i,
        {
            if text_eq(self.items[i].as_str(), name) {
                assert(self@[i as int] == name@);
                return true;
            }
            i = i + 1;
        }
        false
    }

    /// Where `name` belongs in the order: the number of smaller entries, and
    /// whether `name` is present there.
    fn position(&self, name: &str) -> (r: (usize, bool))
        ensures
            r.0 <= self@.len(),
            forall|k: int| 0 <= k < r.0 ==> text_lt(#[trigger] self@[k], name@),
            r.1 ==> r.0 < self@.len() && self@[r.0 as int] == name@,
            !r.1 ==> r.0 == self@.len() || text_lt(name@, self@[r.0 as int]),
    {
        let mut i: usize = 0;
        while i < self.items.len()
            invariant
                i <= self@.len(),
                forall|k: int| 0 <= k < i ==> text_lt(#[trigger] self@[k], name@),
            decreases self.items.len() - i,
        {
            let r = text_rank(self.items[i].as_str(), name);
            match r {
                Rank::Less => {},
                Rank::Same => {
                    return (i, true);
                },
                Rank::Greater => {
                    return (i, false);
                },
            }
            i = i + 1;
        }
        (i, false)
    }

    /// Adds `name`; false when it was already present.
    pub fn insert(&mut self, name: String) -> (added: bool)
        ensures
            added == !old(self)@.contains(name@),
            final(self)@.to_set() == old(self)@.to_set().insert(name@),
    {
        proof {
            use_type_invariant(&*self);
        }
        let (k, found) = self.position(name.as_str());
        if found {
            assert(self@.to_set().insert(name@) =~= self@.to_set());
            return false;
        }
        let ghost old_view = self@;
        assert(!old_view.contains(name@)) by {
            if old_view.contains(name@) {
                let m = choose|m: int| 0 <= m < old_view.len() && old_view[m] == name@;
                lemma_text_lt_order(name@, name@, name@);
                if m >= k {
                    lemma_text_lt_order(name@, old_view[k as int], old_view[m]);
                    if m > k {
                        assert(text_lt(old_view[k as int], old_view[m]));
                    }
                }
            }
        }
        let mut items = Vec::new();
        std::mem::swap(&mut items, &mut self.items);
        items.insert(k, name);
        let ghost new_view = items@.map_values(|s: String| s@);
        proof {
            assert(new_view == old_view.take(k as int).push(name@) + old_view.skip(k as int));
            assert forall|i: int, j: int| 0 <= i < j < new_view.len() implies text_lt(
                #[trigger] new_view[i],
                #[trigger] new_view[j],
            ) by {
                if j < k {
                    assert(new_view[i] == old_view[i]);
                    assert(new_view[j] == old_view[j]);
                } else if j == k {
                    assert(new_view[i] == old_view[i]);
                } else if i < k {
                    assert(new_view[j] == old_view[j - 1]);
                    lemma_text_lt_order(old_view[i], name@, old_view[j - 1]);
                    if j - 1 > k {
                        lemma_text_lt_order(name@, old_view[k as int], old_view[j - 1]);
                    }
                } else if i == k {
                    assert(new_view[j] == old_view[j - 1]);
                    if j - 1 > k {
                        lemma_text_lt_order(name@, old_view[k as int], old_view[j - 1]);
                    }
                } else {
                    assert(new_view[i] == old_view[i - 1]);
                    assert(new_view[j] == old_view[j - 1]);
                }
            }
            assert forall|x| new_view.to_set().contains(x) <==> old_view.to_set().insert(
                name@,
            ).contains(x) by {
                if new_view.to_set().contains(x) {
                    let m = choose|m: int| 0 <= m < new_view.len() && new_view[m] == x;
                    if m < k {
                        assert(old_view[m] == x);
                    } else if m > k {
                        assert(old_view[m - 1] == x);
                    }
                }
                if old_view.to_set().contains(x) {
                    let m = choose|m: int| 0 <= m < old_view.len() && old_view[m] == x;
                    if m < k {
                        assert(new_view[m] == x);
                    } else {
                        assert(new_view[m + 1] == x);
                    }
                }
                if x == name@ {
                    assert(new_view[k as int] == x);
                }
            }
            assert(new_view.to_set() =~= old_view.to_set().insert(name@));
        }
        self.items = items;
        true
    }

    /// Removes `name`; false when it was absent.
    pub fn remove(&mut self, name: &str) -> (removed: bool)
        ensures
            removed == old(self)@.contains(name@),
            final(self)@.to_set() == old(self)@.to_set().remove(name@),
    {
        proof {
            use_type_invariant(&*self);
        }
        let (k, found) = self.position(name);
        let ghost old_view = self@;
        if !found {
            assert(!old_view.contains(name@)) by {
                if old_view.contains(name@) {
                    let m = choose|m: int| 0 <= m < old_view.len() && old_view[m] == name@;
                    lemma_text_lt_order(name@, name@, name@);
                    if m >= k {
                        lemma_text_lt_order(name@, old_view[k as int], old_view[m]);
                        if m > k {
                            assert(text_lt(old_view[k as int], old_view[m]));
                        }
                    }
                }
            }
            assert(old_view.to_set().remove(name@) =~= old_view.to_set());
            return false;
        }
        let mut items = Vec::new();
        std::mem::swap(&mut items, &mut self.items);
        items.remove(k);
        let ghost new_view = items@.map_values(|s: String| s@);
        proof {
            assert(new_view == old_view.take(k as int) + old_view.skip(k + 1));
            assert forall|i: int, j: int| 0 <= i < j < new_view.len() implies text_lt(
                #[trigger] new_view[i],
                #[trigger] new_view[j],
            ) by {
                if j < k {
                    assert(new_view[i] == old_view[i]);
                    assert(new_view[j] == old_view[j]);
                } else if i < k {
                    assert(new_view[i] == old_view[i]);
                    assert(new_view[j] == old_view[j + 1]);
                } else {
                    assert(new_view[i] == old_view[i + 1]);
                    assert(new_view[j] == old_view[j + 1]);
                }
            }
            assert forall|x| new_view.to_set().contains(x) <==> old_view.to_set().remove(
                name@,
            ).contains(x) by {
                if new_view.to_set().contains(x) {
                    let m = choose|m: int| 0 <= m < new_view.len() && new_view[m] == x;
                    if m < k {
                        assert(old_view[m] == x);
                        assert(text_lt(old_view[m], old_view[k as int]));
                        lemma_text_lt_order(x, x, x);
                    } else {
                        assert(old_view[m + 1] == x);
                        assert(text_lt(old_view[k as int], old_view[m + 1]));
                        lemma_text_lt_order(x, x, x);
                    }
                }
                if old_view.to_set().contains(x) && x != name@ {
                    let m = choose|m: int| 0 <= m < old_view.len() && old_view[m] == x;
                    if m < k {
                        assert(new_view[m] == x);
                    } else {
                        assert(m != k);
                        assert(new_view[m - 1] == x);
                    }
                }
            }
            assert(new_view.to_set() =~= old_view.to_set().remove(name@));
        }
        self.items = items;
        true
    }
}

impl Clone for ModuleSet {
    fn clone(&self) -> (r: Self)
        ensures
            r@ == self@,
    {
        proof {
            use_type_invariant(self);
        }
        let mut items: Vec<String> = Vec::new();
        let mut i: usize = 0;
        while i < self.items.len()
            invariant
                i <= self.items@.len(),
                items@.map_values(|s: String| s@) == self@.take(i as int),
            decreases self.items.len() - i,
        {
            let name = self.items[i].clone();
            proof {
                assert(self@[i as int] == name@);
                assert(items@.push(name).map_values(|s: String| s@) == items@.map_values(|s: String| s@).push(name@));
                assert(self@.take(i + 1) == self@.take(i as int).push(self@[i as int]));
            }
            items.push(name);
            i = i + 1;
        }
        assert(self@.take(self.items.len() as int) == self@);
        ModuleSet { items }
    }
}

/// A set of edges, kept in edge order.
#[derive(Debug, PartialEq, Eq)]
pub struct EdgeSet {
    items: Vec<Edge>,
}

impl View for EdgeSet {
    type V = Seq<EdgeView>;

    closed spec fn view(&self) -> Seq<EdgeView> {
        self.items@.map_values(|e: Edge| e@)
    }
}

impl EdgeSet {
    #[verifier::type_invariant]
    spec fn sorted(&self) -> bool {
        edges_sorted(self@)
    }

    /// An empty set.
    pub fn new() -> (r: Self)
        ensures
            r@ == Seq::<EdgeView>::empty(),
    {
        let r = EdgeSet { items: Vec::new() };
        assert(r@ == Seq::<EdgeView>::empty());
        r
    }

    /// The number of edges.
    pub fn len(&self) -> (n: usize)
        ensures
            n == self@.len(),
            edges_sorted(self@),
    {
        proof {
            use_type_invariant(self);
        }
        self.items.len()
    }

    /// Whether there are no edges.
    pub fn is_empty(&self) -> (b: bool)
        ensures
            b == (self@.len() == 0),
    {
        self.items.len() == 0
    }

    /// The `i`-th edge in edge order.
    pub fn get(&self, i: usize) -> (e: &Edge)
        requires
            i < self@.len(),
        ensures
            e@ == self@[i as int],
    {
        &self.items[i]
    }

    /// Whether `name` is in the set.
    pub fn contains(&self, name: &Edge) -> (b: bool)
        ensures
            b == self@.contains(name@),
    {
        let mut i: usize = 0;
        while i < self.items.len()
            invariant
                i <= self@.len(),
                forall|k: int| 0 <= k < i ==> self@[k] != name@,
            decreases self.items.len() - i,
        {
            if edge_rank(&self.items[i], name) == Rank::Same {
                assert(self@[i as int] == name@);
                return true;
            }
            i = i + 1;
        }
        false
    }

    /// Where `name` belongs in the order: the number of smaller entries, and
    /// whether `name` is present there.
    fn position(&self, name: &Edge) -> (r: (usize, bool))
        ensures
            r.0 <= self@.len(),
            forall|k: int| 0 <= k < r.0 ==> edge_lt(#[trigger] self@[k], name@),
            r.1 ==> r.0 < self@.len() && self@[r.0 as int] == name@,
            !r.1 ==> r.0 == self@.len() || edge_lt(name@, self@[r.0 as int]),
    {
        let mut i: usize = 0;
        while i < self.items.len()
            invariant
                i <= self@.len(),
                forall|k: int| 0 <= k < i ==> edge_lt(#[trigger] self@[k], name@),
            decreases self.items.len() - i,
        {
            let r = edge_rank(&self.items[i], name);
            match r {
                Rank::Less => {},
                Rank::Same => {
                    return (i, true);
                },
                Rank::Greater => {
                    return (i, false);
                },
            }
            i = i + 1;
        }
        (i, false)
    }

    /// Adds `name`; false when it was already present.
    pub fn insert(&mut self, name: Edge) -> (added: bool)
        ensures
            added == !old(self)@.contains(name@),
            final(self)@.to_set() == old(self)@.to_set().insert(name@),
    {
        proof {
            use_type_invariant(&*self);
        }
        let (k, found) = self.position(&name);
        if found {
            assert(self@.to_set().insert(name@) =~= self@.to_set());
            return false;
        }
        let ghost old_view = self@;
        assert(!old_view.contains(name@)) by {
            if old_view.contains(name@) {
                let m = choose|m: int| 0 <= m < old_view.len() && old_view[m] == name@;
                lemma_edge_lt_order(name@, name@, name@);
                if m >= k {
                    lemma_edge_lt_order(name@, old_view[k as int], old_view[m]);
                    if m > k {
                        assert(edge_lt(old_view[k as int], old_view[m]));
                    }
                }
            }
        }
        let mut items = Vec::new();
        std::mem::swap(&mut items, &mut self.items);
        items.insert(k, name);
        let ghost new_view = items@.map_values(|e: Edge| e@);
        proof {
            assert(new_view == old_view.take(k as int).push(name@) + old_view.skip(k as int));
            assert forall|i: int, j: int| 0 <= i < j < new_view.len() implies edge_lt(
                #[trigger] new_view[i],
                #[trigger] new_view[j],
            ) by {
                if j < k {
                    assert(new_view[i] == old_view[i]);
                    assert(new_view[j] == old_view[j]);
                } else if j == k {
                    assert(new_view[i] == old_view[i]);
                } else if i < k {
                    assert(new_view[j] == old_view[j - 1]);
                    lemma_edge_lt_order(old_view[i], name@, old_view[j - 1]);
                    if j - 1 > k {
                        lemma_edge_lt_order(name@, old_view[k as int], old_view[j - 1]);
                    }
                } else if i == k {
                    assert(new_view[j] == old_view[j - 1]);
                    if j - 1 > k {
                        lemma_edge_lt_order(name@, old_view[k as int], old_view[j - 1]);
                    }
                } else {
                    assert(new_view[i] == old_view[i - 1]);
                    assert(new_view[j] == old_view[j - 1]);
                }
            }
            assert forall|x| new_view.to_set().contains(x) <==> old_view.to_set().insert(
                name@,
            ).contains(x) by {
                if new_view.to_set().contains(x) {
                    let m = choose|m: int| 0 <= m < new_view.len() && new_view[m] == x;
                    if m < k {
                        assert(old_view[m] == x);
                    } else if m > k {
                        assert(old_view[m - 1] == x);
                    }
                }
                if old_view.to_set().contains(x) {
                    let m = choose|m: int| 0 <= m < old_view.len() && old_view[m] == x;
                    if m < k {
                        assert(new_view[m] == x);
                    } else {
                        assert(new_view[m + 1] == x);
                    }
                }
                if x == name@ {
                    assert(new_view[k as int] == x);
                }
            }
            assert(new_view.to_set() =~= old_view.to_set().insert(name@));
        }
        self.items = items;
        true
    }

    /// Removes `name`; false when it was absent.
    pub fn remove(&mut self, name: &Edge) -> (removed: bool)
        ensures
            removed == old(self)@.contains(name@),
            final(self)@.to_set() == old(self)@.to_set().remove(name@),
    {
        proof {
            use_type_invariant(&*self);
        }
        let (k, found) = self.position(name);
        let ghost old_view = self@;
        if !found {
            assert(!old_view.contains(name@)) by {
                if old_view.contains(name@) {
                    let m = choose|m: int| 0 <= m < old_view.len() && old_view[m] == name@;
                    lemma_edge_lt_order(name@, name@, name@);
                    if m >= k {
                        lemma_edge_lt_order(name@, old_view[k as int], old_view[m]);
                        if m > k {
                            assert(edge_lt(old_view[k as int], old_view[m]));
                        }
                    }
                }
            }
            assert(old_view.to_set().remove(name@) =~= old_view.to_set());
            return false;
        }
        let mut items = Vec::new();
        std::mem::swap(&mut items, &mut self.items);
        items.remove(k);
        let ghost new_view = items@.map_values(|e: Edge| e@);
        proof {
            assert(new_view == old_view.take(k as int) + old_view.skip(k + 1));
            assert forall|i: int, j: int| 0 <= i < j < new_view.len() implies edge_lt(
                #[trigger] new_view[i],
                #[trigger] new_view[j],
            ) by {
                if j < k {
                    assert(new_view[i] == old_view[i]);
                    assert(new_view[j] == old_view[j]);
                } else if i < k {
                    assert(new_view[i] == old_view[i]);
                    assert(new_view[j] == old_view[j + 1]);
                } else {
                    assert(new_view[i] == old_view[i + 1]);
                    assert(new_view[j] == old_view[j + 1]);
                }
            }
            assert forall|x| new_view.to_set().contains(x) <==> old_view.to_set().remove(
                name@,
            ).contains(x) by {
                if new_view.to_set().contains(x) {
                    let m = choose|m: int| 0 <= m < new_view.len() && new_view[m] == x;
                    if m < k {
                        assert(old_view[m] == x);
                        assert(edge_lt(old_view[m], old_view[k as int]));
                        lemma_edge_lt_order(x, x, x);
                    } else {
                        assert(old_view[m + 1] == x);
                        assert(edge_lt(old_view[k as int], old_view[m + 1]));
                        lemma_edge_lt_order(x, x, x);
                    }
                }
                if old_view.to_set().contains(x) && x != name@ {
                    let m = choose|m: int| 0 <= m < old_view.len() && old_view[m] == x;
                    if m < k {
                        assert(new_view[m] == x);
                    } else {
                        assert(m != k);
                        assert(new_view[m - 1] == x);
                    }
                }
            }
            assert(new_view.to_set() =~= old_view.to_set().remove(name@));
        }
        self.items = items;
        true
    }
}


// ---------------------------------------------------------------------------
// Searching sequences
// ---------------------------------------------------------------------------

/// The index of the first element satisfying `p`, or -1 when none does.
pub open spec fn first_where<A>(s: Seq<A>, p: spec_fn(A) -> bool) -> int
    decreases s.len(),
{
    if s.len() == 0 {
        -1
    } else if p(s[0]) {
        0
    } else {
        let r = first_where(s.drop_first(), p);
        if r < 0 {
            -1
        } else {
            r + 1
        }
    }
}

/// `first_where` finds the first element that satisfies `p`.
pub proof fn lemma_first_where<A>(s: Seq<A>, p: spec_fn(A) -> bool, i: int)
    requires
        0 <= i <= s.len(),
        forall|k: int| 0 <= k < i ==> !p(#[trigger] s[k]),
        i < s.len() ==> p(s[i]),
    ensures
        first_where(s, p) == (if i < s.len() {
            i
        } else {
            -1
        }),
    decreases i,
{
    if i > 0 {
        assert(!p(s[0]));
        assert forall|k: int| 0 <= k < i - 1 implies !p(#[trigger] s.drop_first()[k]) by {
            assert(s.drop_first()[k] == s[k + 1]);
        }
        if i < s.len() {
            assert(s.drop_first()[i - 1] == s[i]);
        }
        lemma_first_where(s.drop_first(), p, i - 1);
    }
}

// ---------------------------------------------------------------------------
// Graphs
// ---------------------------------------------------------------------------

impl Clone for EdgeSet {
    fn clone(&self) -> (r: Self)
        ensures
            r@ == self@,
    {
        proof {
            use_type_invariant(self);
        }
        let mut items: Vec<Edge> = Vec::new();
        let mut i: usize = 0;
        while i < self.items.len()
            invariant
                i <= self.items@.len(),
                items@.map_values(|e: Edge| e@) == self@.take(i as int),
            decreases self.items.len() - i,
        {
            let edge = self.items[i].clone();
            proof {
                assert(self@[i as int] == edge@);
                assert(items@.push(edge).map_values(|e: Edge| e@) == items@.map_values(|e: Edge| e@).push(edge@));
                assert(self@.take(i + 1) == self@.take(i as int).push(self@[i as int]));
            }
            items.push(edge);
            i = i + 1;
        }
        assert(self@.take(self.items.len() as int) == self@);
        EdgeSet { items }
    }
}

/// The modules of one crate and the references between them.
#[derive(Debug, PartialEq, Eq)]
pub struct Graph {
    pub crate_name: String,
    pub modules: ModuleSet,
    pub edges: EdgeSet,
}

/// The contents of a graph.
pub struct GraphView {
    pub crate_name: Seq<char>,
    pub modules: Seq<Seq<char>>,
    pub edges: Seq<EdgeView>,
}

impl View for Graph {
    type V = GraphView;

    open spec fn view(&self) -> GraphView {
        GraphView { crate_name: self.crate_name@, modules: self.modules@, edges: self.edges@ }
    }
}

impl Clone for Graph {
    fn clone(&self) -> (r: Self)
        ensures
            r@ == self@,
    {
        Graph {
            crate_name: self.crate_name.clone(),
            modules: self.modules.clone(),
            edges: self.edges.clone(),
        }
    }
}

impl Default for Graph {
    fn default() -> (g: Self)
        ensures
            g@.crate_name == Seq::<char>::empty(),
            g@.modules == Seq::<Seq<char>>::empty(),
            g@.edges == Seq::<EdgeView>::empty(),
    {
        Graph { crate_name: String::new(), modules: ModuleSet::new(), edges: EdgeSet::new() }
    }
}

/// The separator between the segments of a module path.
pub open spec fn path_separator() -> Seq<char> {
    seq![':', ':']
}

/// Whether `module` is selected by `prefix`: the module itself or one of its
/// child modules. The crate root `root` selects only itself.
pub open spec fn within_spec(module: Seq<char>, prefix: Seq<char>, root: Seq<char>) -> bool {
    module == prefix || (prefix != root && has_prefix(module, prefix + path_separator()))
}

/// Whether `module` is selected by `prefix` (see `within_spec`).
pub fn within(module: &str, prefix: &str, root: &str) -> (r: bool)
    ensures
        r == within_spec(module@, prefix@, root@),
{
    if text_eq(module, prefix) {
        return true;
    }
    if text_eq(prefix, root) {
        return false;
    }
    let m = chars_of(module);
    let mut p = chars_of(prefix);
    p.push(':');
    p.push(':');
    assert(p@ == prefix@ + path_separator());
    starts_with_chars(&m, &p)
}

/// A module that belongs to another crate than `crate_name`.
pub open spec fn outside_crate(crate_name: Seq<char>) -> spec_fn(Seq<char>) -> bool {
    |m: Seq<char>| m != crate_name && !has_prefix(m, crate_name + path_separator())
}

/// An edge with an end that is not a module of the graph, or an empty field.
pub open spec fn invalid_edge(modules: Seq<Seq<char>>) -> spec_fn(EdgeView) -> bool {
    |e: EdgeView|
        !modules.contains(e.from) || !modules.contains(e.to) || e.symbol.len() == 0
            || e.location.len() == 0 || e.kind.len() == 0
}

/// What `{:?}` prints for an edge.
pub open spec fn edge_debug(e: EdgeView) -> Seq<char> {
    "Edge { from: "@ + debug_quoted(e.from) + ", to: "@ + debug_quoted(e.to) + ", symbol: "@
        + debug_quoted(e.symbol) + ", location: "@ + debug_quoted(e.location) + ", kind: "@
        + debug_quoted(e.kind) + " }"@
}

/// Whether a graph is well formed, and the first reason why not: the crate
/// root must be a module, every module must be the root or below it, and
/// every edge must join two modules and have non-empty fields.
pub open spec fn validate_spec(g: GraphView) -> Result<(), Seq<char>> {
    let m = first_where(g.modules, outside_crate(g.crate_name));
    let e = first_where(g.edges, invalid_edge(g.modules));
    if g.crate_name.len() == 0 || !g.modules.contains(g.crate_name) {
        Err("Graph must contain its crate root"@)
    } else if m >= 0 {
        Err("Module outside collected crate: "@ + g.modules[m])
    } else if e >= 0 {
        Err("Invalid edge: "@ + edge_debug(g.edges[e]))
    } else {
        Ok(())
    }
}

/// `first_where` finds nothing exactly when no element satisfies `p`.
pub proof fn lemma_first_where_none<A>(s: Seq<A>, p: spec_fn(A) -> bool)
    ensures
        first_where(s, p) < 0 <==> forall|k: int| 0 <= k < s.len() ==> !p(#[trigger] s[k]),
    decreases s.len(),
{
    if s.len() > 0 {
        lemma_first_where_none(s.drop_first(), p);
        if first_where(s, p) < 0 {
            assert forall|k: int| 0 <= k < s.len() implies !p(#[trigger] s[k]) by {
                if k > 0 {
                    assert(s[k] == s.drop_first()[k - 1]);
                }
            }
        } else if !p(s[0]) {
            let r = first_where(s.drop_first(), p);
            assert(r >= 0);
            lemma_first_where_range_here(s.drop_first(), p);
            assert(s[r + 1] == s.drop_first()[r]);
        }
    }
}

proof fn lemma_first_where_range_here<A>(s: Seq<A>, p: spec_fn(A) -> bool)
    ensures
        -1 <= first_where(s, p) < s.len(),
        first_where(s, p) >= 0 ==> p(s[first_where(s, p)]),
    decreases s.len(),
{
    if s.len() > 0 {
        lemma_first_where_range_here(s.drop_first(), p);
    }
}

/// A well-formed graph: the crate root is a non-empty module name among the
/// modules, every module is the root or lies below it, and every edge joins
/// two modules of the graph and names its symbol, location and kind.
pub open spec fn well_formed(g: GraphView) -> bool {
    &&& g.crate_name.len() > 0
    &&& g.modules.contains(g.crate_name)
    &&& forall|k: int|
        0 <= k < g.modules.len() ==> (#[trigger] g.modules[k] == g.crate_name || has_prefix(
            g.modules[k],
            g.crate_name + path_separator(),
        ))
    &&& forall|k: int|
        #![trigger g.edges[k]]
        0 <= k < g.edges.len() ==> {
            &&& g.modules.contains(g.edges[k].from)
            &&& g.modules.contains(g.edges[k].to)
            &&& g.edges[k].symbol.len() > 0
            &&& g.edges[k].location.len() > 0
            &&& g.edges[k].kind.len() > 0
        }
}

/// Validation accepts a graph exactly when it is well formed: in particular
/// no edge may start or end outside the graph's modules.
pub proof fn lemma_validate_accepts_well_formed(g: GraphView)
    ensures
        validate_spec(g) is Ok <==> well_formed(g),
{
    lemma_first_where_none(g.modules, outside_crate(g.crate_name));
    lemma_first_where_none(g.edges, invalid_edge(g.modules));
    if well_formed(g) {
        assert forall|k: int| 0 <= k < g.modules.len() implies !outside_crate(g.crate_name)(
            #[trigger] g.modules[k],
        ) by {}
        assert forall|k: int| 0 <= k < g.edges.len() implies !invalid_edge(g.modules)(
            #[trigger] g.edges[k],
        ) by {}
    }
    if validate_spec(g) is Ok {
        assert forall|k: int| 0 <= k < g.modules.len() implies (#[trigger] g.modules[k] == g.crate_name
            || has_prefix(g.modules[k], g.crate_name + path_separator())) by {
            assert(!outside_crate(g.crate_name)(g.modules[k]));
        }
        assert forall|k: int| 0 <= k < g.edges.len() implies {
            &&& g.modules.contains(#[trigger] g.edges[k].from)
            &&& g.modules.contains(g.edges[k].to)
            &&& g.edges[k].symbol.len() > 0
            &&& g.edges[k].location.len() > 0
            &&& g.edges[k].kind.len() > 0
        } by {
            assert(!invalid_edge(g.modules)(g.edges[k]));
        }
    }
}

/// Whether an outcome with a `String` message has the given characters.
pub open spec fn outcome_matches(r: Result<(), String>, s: Result<(), Seq<char>>) -> bool {
    match (r, s) {
        (Ok(()), Ok(())) => true,
        (Err(m), Err(t)) => m@ == t,
        _ => false,
    }
}

/// Appends what `{:?}` prints for an edge.
pub fn push_edge_debug(out: &mut Vec<char>, e: &Edge)
    ensures
        final(out)@ == old(out)@ + edge_debug(e@),
{
    let ghost start = out@;
    push_text(out, "Edge { from: ");
    push_debug(out, e.from.as_str());
    push_text(out, ", to: ");
    push_debug(out, e.to.as_str());
    push_text(out, ", symbol: ");
    push_debug(out, e.symbol.as_str());
    push_text(out, ", location: ");
    push_debug(out, e.location.as_str());
    push_text(out, ", kind: ");
    push_debug(out, e.kind.as_str());
    push_text(out, " }");
    assert(out@ == start + edge_debug(e@));
}

/// A string made of the characters of `s`.
pub fn owned(s: &str) -> (r: String)
    ensures
        r@ == s@,
{
    s.to_owned()
}

impl Graph {
    /// Checks that the graph is well formed (see `validate_spec`).
    pub fn validate(&self) -> (r: Result<(), String>)
        ensures
            outcome_matches(r, validate_spec(self@)),
            r is Ok <==> well_formed(self@),
    {
        proof {
            lemma_validate_accepts_well_formed(self@);
        }
        if self.crate_name.as_str().is_empty() || !self.modules.contains(self.crate_name.as_str()) {
            return Err(owned("Graph must contain its crate root"));
        }
        let crate_name = self.crate_name.as_str();
        let mut root = chars_of(crate_name);
        root.push(':');
        root.push(':');
        assert(root@ == self.crate_name@ + path_separator());
        let ghost outside = outside_crate(self.crate_name@);
        let n = self.modules.len();
        let mut i: usize = 0;
        while i < n
            invariant
                n == self@.modules.len(),
                i <= n,
                root@ == self.crate_name@ + path_separator(),
                crate_name@ == self.crate_name@,
                self.crate_name@.len() > 0,
                self@.modules.contains(self.crate_name@),
                outside == outside_crate(self.crate_name@),
                forall|k: int| 0 <= k < i ==> !outside(#[trigger] self@.modules[k]),
            decreases n - i,
        {
            let module = self.modules.get(i);
            let m = chars_of(module.as_str());
            if !text_eq(module.as_str(), crate_name) && !starts_with_chars(&m, &root) {
                proof {
                    lemma_first_where(self@.modules, outside, i as int);
                }
                let mut out = chars_of("Module outside collected crate: ");
                push_slice(&mut out, &m);
                return Err(string_of(&out));
            }
            i = i + 1;
        }
        proof {
            lemma_first_where(self@.modules, outside, n as int);
        }
        let ghost invalid = invalid_edge(self@.modules);
        let ne = self.edges.len();
        let mut j: usize = 0;
        while j < ne
            invariant
                ne == self@.edges.len(),
                j <= ne,
                invalid == invalid_edge(self@.modules),
                self.crate_name@.len() > 0,
                self@.modules.contains(self.crate_name@),
                first_where(self@.modules, outside_crate(self.crate_name@)) == -1,
                forall|k: int| 0 <= k < j ==> !invalid(#[trigger] self@.edges[k]),
            decreases ne - j,
        {
            let edge = self.edges.get(j);
            if !self.modules.contains(edge.from.as_str()) || !self.modules.contains(
                edge.to.as_str(),
            ) || edge.symbol.as_str().is_empty() || edge.location.as_str().is_empty()
                || edge.kind.as_str().is_empty() {
                proof {
                    lemma_first_where(self@.edges, invalid, j as int);
                }
                let mut out = chars_of("Invalid edge: ");
                push_edge_debug(&mut out, edge);
                return Err(string_of(&out));
            }
            j = j + 1;
        }
        proof {
            lemma_first_where(self@.edges, invalid, ne as int);
        }
        Ok(())
    }
}


// ---------------------------------------------------------------------------
// Interchange text
// ---------------------------------------------------------------------------

/// The module records of the interchange text, one line per module.
pub open spec fn module_records(ms: Seq<Seq<char>>) -> Seq<char>
    decreases ms.len(),
{
    if ms.len() == 0 {
        seq![]
    } else {
        module_records(ms.drop_last()) + "M\t"@ + hex_of(ms.last()) + "\n"@
    }
}

/// The record of one edge: its five fields in hexadecimal, tab-separated.
pub open spec fn edge_record(e: EdgeView) -> Seq<char> {
    "E\t"@ + hex_of(e.from) + "\t"@ + hex_of(e.to) + "\t"@ + hex_of(e.symbol) + "\t"@ + hex_of(
        e.location,
    ) + "\t"@ + hex_of(e.kind) + "\n"@
}

/// The edge records of the interchange text, one line per edge.
pub open spec fn edge_records(es: Seq<EdgeView>) -> Seq<char>
    decreases es.len(),
{
    if es.len() == 0 {
        seq![]
    } else {
        edge_records(es.drop_last()) + edge_record(es.last())
    }
}

/// The interchange text of a graph: a version line, the crate record, the
/// module records and edge records in order, and the terminator `END`.
pub open spec fn encode_spec(g: GraphView) -> Seq<char> {
    "layer-graph-v1\nC\t"@ + hex_of(g.crate_name) + "\n"@ + module_records(g.modules)
        + edge_records(g.edges) + "END\n"@
}

fn push_edge_record(out: &mut Vec<char>, e: &Edge)
    ensures
        final(out)@ == old(out)@ + edge_record(e@),
{
    let ghost start = out@;
    push_text(out, "E\t");
    push_hex(out, e.from.as_str());
    push_text(out, "\t");
    push_hex(out, e.to.as_str());
    push_text(out, "\t");
    push_hex(out, e.symbol.as_str());
    push_text(out, "\t");
    push_hex(out, e.location.as_str());
    push_text(out, "\t");
    push_hex(out, e.kind.as_str());
    push_text(out, "\n");
    assert(out@ == start + edge_record(e@));
}

// ---------------------------------------------------------------------------
// Graphviz
// ---------------------------------------------------------------------------

/// How one character is written inside a quoted Graphviz identifier.
pub open spec fn dot_escape_char(c: char) -> Seq<char> {
    if c == '\\' {
        seq!['\\', '\\']
    } else if c == '"' {
        seq!['\\', '"']
    } else if c == '\n' {
        seq!['\\', 'n']
    } else {
        seq![c]
    }
}

/// `s` with backslashes, double quotes and newlines escaped.
pub open spec fn dot_escape(s: Seq<char>) -> Seq<char>
    decreases s.len(),
{
    if s.len() == 0 {
        seq![]
    } else {
        dot_escape(s.drop_last()) + dot_escape_char(s.last())
    }
}

/// `s` as a quoted Graphviz identifier.
pub open spec fn dot_quote(s: Seq<char>) -> Seq<char> {
    seq!['"'] + dot_escape(s) + seq!['"']
}

/// The node lines of the Graphviz text, one per module.
pub open spec fn dot_nodes(ms: Seq<Seq<char>>) -> Seq<char>
    decreases ms.len(),
{
    if ms.len() == 0 {
        seq![]
    } else {
        dot_nodes(ms.drop_last()) + "  "@ + dot_quote(ms.last()) + ";\n"@
    }
}

/// The (from, to) module pairs of the edges, in edge order, each pair once.
/// Edges with the same ends are adjacent in edge order.
pub open spec fn edge_pairs(es: Seq<EdgeView>) -> Seq<(Seq<char>, Seq<char>)>
    decreases es.len(),
{
    if es.len() == 0 {
        seq![]
    } else {
        let p = edge_pairs(es.drop_last());
        let q = (es.last().from, es.last().to);
        if p.len() > 0 && p.last() == q {
            p
        } else {
            p.push(q)
        }
    }
}

/// The arrow lines of the Graphviz text, one per module pair.
pub open spec fn dot_arrows(ps: Seq<(Seq<char>, Seq<char>)>) -> Seq<char>
    decreases ps.len(),
{
    if ps.len() == 0 {
        seq![]
    } else {
        dot_arrows(ps.drop_last()) + "  "@ + dot_quote(ps.last().0) + " -> "@ + dot_quote(
            ps.last().1,
        ) + ";\n"@
    }
}

/// The Graphviz text of a graph: every module as a node, and one arrow per
/// pair of modules that some edge joins.
pub open spec fn dot_spec(g: GraphView) -> Seq<char> {
    "digraph modules {\n"@ + dot_nodes(g.modules) + dot_arrows(edge_pairs(g.edges)) + "}\n"@
}

/// The (from, to) module pairs that some edge joins.
pub open spec fn module_pairs(es: Seq<EdgeView>) -> Set<(Seq<char>, Seq<char>)> {
    es.map_values(|e: EdgeView| (e.from, e.to)).to_set()
}

/// A module pair as an edge with empty symbol, location and kind, so that
/// pairs are ordered by `edge_lt`.
pub open spec fn pair_edge(p: (Seq<char>, Seq<char>)) -> EdgeView {
    EdgeView { from: p.0, to: p.1, symbol: seq![], location: seq![], kind: seq![] }
}

/// Module pairs as edges (see `pair_edge`).
pub open spec fn pair_edges(ps: Seq<(Seq<char>, Seq<char>)>) -> Seq<EdgeView> {
    ps.map_values(|p: (Seq<char>, Seq<char>)| pair_edge(p))
}

/// Of sorted edges, `edge_pairs` lists each joined module pair once, in
/// increasing order, ending with the pair of the last edge.
proof fn lemma_edge_pairs(es: Seq<EdgeView>)
    requires
        edges_sorted(es),
    ensures
        edges_sorted(pair_edges(edge_pairs(es))),
        edge_pairs(es).to_set() == module_pairs(es),
        es.len() > 0 ==> edge_pairs(es).len() > 0 && edge_pairs(es).last() == (
            es.last().from,
            es.last().to,
        ),
    decreases es.len(),
{
    let f = |e: EdgeView| (e.from, e.to);
    if es.len() == 0 {
        assert(edge_pairs(es).to_set() =~= module_pairs(es));
    } else {
        let init = es.drop_last();
        let e = es.last();
        let q = (e.from, e.to);
        assert(edges_sorted(init)) by {
            assert forall|i: int, j: int| 0 <= i < j < init.len() implies edge_lt(
                #[trigger] init[i],
                #[trigger] init[j],
            ) by {
                assert(init[i] == es[i] && init[j] == es[j]);
            }
        }
        lemma_edge_pairs(init);
        let p = edge_pairs(init);
        assert(es.map_values(f) == init.map_values(f).push(q));
        lemma_push_to_set(init.map_values(f), q);
        if p.len() > 0 && p.last() == q {
            assert(p.to_set().contains(p[p.len() - 1]));
            assert(module_pairs(es) =~= module_pairs(init));
        } else {
            lemma_push_to_set(p, q);
            let pe = pair_edges(p);
            let qe = pair_edge(q);
            assert(pair_edges(p.push(q)) == pe.push(qe));
            if p.len() > 0 {
                let a = init.last();
                assert(a == es[es.len() - 2]);
                assert(edge_lt(a, e));
                assert(pe.last() == pair_edge((a.from, a.to)));
                lemma_text_lt_order(a.from, e.from, e.from);
                lemma_text_lt_order(a.to, e.to, e.to);
                assert(edge_lt(pe.last(), qe));
            }
            assert forall|i: int, j: int| 0 <= i < j < pe.push(qe).len() implies edge_lt(
                #[trigger] pe.push(qe)[i],
                #[trigger] pe.push(qe)[j],
            ) by {
                if j == pe.len() {
                    if i < pe.len() - 1 {
                        assert(edge_lt(pe[i], pe[pe.len() - 1]));
                        lemma_edge_lt_order(pe[i], pe[pe.len() - 1], qe);
                    }
                } else {
                    assert(pe.push(qe)[i] == pe[i] && pe.push(qe)[j] == pe[j]);
                }
            }
        }
    }
}

/// The Graphviz text shows the module graph only: two graphs with the same
/// modules and the same joined module pairs print the same text, whatever
/// their crate names and the symbols, locations and kinds of their edges.
pub proof fn lemma_dot_module_level(g1: GraphView, g2: GraphView)
    requires
        edges_sorted(g1.edges),
        edges_sorted(g2.edges),
        g1.modules == g2.modules,
        module_pairs(g1.edges) == module_pairs(g2.edges),
    ensures
        dot_spec(g1) == dot_spec(g2),
{
    lemma_edge_pairs(g1.edges);
    lemma_edge_pairs(g2.edges);
    let p1 = edge_pairs(g1.edges);
    let p2 = edge_pairs(g2.edges);
    let a = pair_edges(p1);
    let b = pair_edges(p2);
    assert forall|x: EdgeView| a.to_set().contains(x) implies b.to_set().contains(x) by {
        let k = choose|k: int| 0 <= k < a.len() && a[k] == x;
        assert(p1.to_set().contains(p1[k]));
        let m = choose|m: int| 0 <= m < p2.len() && p2[m] == p1[k];
        assert(b[m] == x);
    }
    assert forall|x: EdgeView| b.to_set().contains(x) implies a.to_set().contains(x) by {
        let k = choose|k: int| 0 <= k < b.len() && b[k] == x;
        assert(p2.to_set().contains(p2[k]));
        let m = choose|m: int| 0 <= m < p1.len() && p1[m] == p2[k];
        assert(a[m] == x);
    }
    assert(a.to_set() =~= b.to_set());
    lemma_sorted_edges_unique(a, b);
    assert(p1 =~= p2) by {
        assert(p1.len() == a.len() && p2.len() == b.len());
        assert forall|i: int| 0 <= i < p1.len() implies p1[i] == p2[i] by {
            assert(a[i] == b[i]);
        }
    }
}

fn push_dot_quote(out: &mut Vec<char>, s: &str)
    ensures
        final(out)@ == old(out)@ + dot_quote(s@),
{
    let ghost start = out@;
    let cs = chars_of(s);
    out.push('"');
    let mut i: usize = 0;
    while i < cs.len()
        invariant
            i <= cs.len(),
            cs@ == s@,
            out@ == start + seq!['"'] + dot_escape(cs@.take(i as int)),
        decreases cs.len() - i,
    {
        let c = cs[i];
        if c == '\\' {
            out.push('\\');
            out.push('\\');
        } else if c == '"' {
            out.push('\\');
            out.push('"');
        } else if c == '\n' {
            out.push('\\');
            out.push('n');
        } else {
            out.push(c);
        }
        assert(cs@.take(i + 1).drop_last() == cs@.take(i as int));
        i = i + 1;
    }
    assert(cs@.take(cs.len() as int) == cs@);
    out.push('"');
}

impl Graph {
    /// The interchange text of the graph (see `encode_spec`). Fields are
    /// written as hexadecimal UTF-8, so any characters survive, and the `END`
    /// terminator lets a reader reject partial output.
    pub fn encode(&self) -> (r: String)
        ensures
            r@ == encode_spec(self@),
    {
        let mut out = chars_of("layer-graph-v1\nC\t");
        push_hex(&mut out, self.crate_name.as_str());
        push_text(&mut out, "\n");
        let ghost head = out@;
        let n = self.modules.len();
        let mut i: usize = 0;
        while i < n
            invariant
                n == self@.modules.len(),
                i <= n,
                out@ == head + module_records(self@.modules.take(i as int)),
            decreases n - i,
        {
            let ghost before = out@;
            push_text(&mut out, "M\t");
            push_hex(&mut out, self.modules.get(i).as_str());
            push_text(&mut out, "\n");
            assert(self@.modules.take(i + 1).drop_last() == self@.modules.take(i as int));
            i = i + 1;
        }
        assert(self@.modules.take(n as int) == self@.modules);
        let ghost mid = out@;
        let ne = self.edges.len();
        let mut j: usize = 0;
        while j < ne
            invariant
                ne == self@.edges.len(),
                j <= ne,
                out@ == mid + edge_records(self@.edges.take(j as int)),
            decreases ne - j,
        {
            push_edge_record(&mut out, self.edges.get(j));
            assert(self@.edges.take(j + 1).drop_last() == self@.edges.take(j as int));
            j = j + 1;
        }
        assert(self@.edges.take(ne as int) == self@.edges);
        push_text(&mut out, "END\n");
        string_of(&out)
    }

    /// The Graphviz text of the module graph (see `dot_spec`). References
    /// inside one layer appear too.
    pub fn dot(&self) -> (r: String)
        ensures
            r@ == dot_spec(self@),
    {
        let mut out = chars_of("digraph modules {\n");
        let ghost head = out@;
        let n = self.modules.len();
        let mut i: usize = 0;
        while i < n
            invariant
                n == self@.modules.len(),
                i <= n,
                out@ == head + dot_nodes(self@.modules.take(i as int)),
            decreases n - i,
        {
            push_text(&mut out, "  ");
            push_dot_quote(&mut out, self.modules.get(i).as_str());
            push_text(&mut out, ";\n");
            assert(self@.modules.take(i + 1).drop_last() == self@.modules.take(i as int));
            i = i + 1;
        }
        assert(self@.modules.take(n as int) == self@.modules);
        let ghost mid = out@;
        let ne = self.edges.len();
        let mut j: usize = 0;
        let mut last: Option<(&String, &String)> = None;
        while j < ne
            invariant
                ne == self@.edges.len(),
                j <= ne,
                out@ == mid + dot_arrows(edge_pairs(self@.edges.take(j as int))),
                match last {
                    None => edge_pairs(self@.edges.take(j as int)).len() == 0,
                    Some((f, t)) => edge_pairs(self@.edges.take(j as int)).len() > 0
                        && edge_pairs(self@.edges.take(j as int)).last() == (f@, t@),
                },
            decreases ne - j,
        {
            let e = self.edges.get(j);
            assert(self@.edges.take(j + 1).drop_last() == self@.edges.take(j as int));
            let same = match last {
                Some((f, t)) => text_eq(f.as_str(), e.from.as_str()) && text_eq(
                    t.as_str(),
                    e.to.as_str(),
                ),
                None => false,
            };
            if !same {
                proof {
                    let p = edge_pairs(self@.edges.take(j as int));
                    let q = (e.from@, e.to@);
                    assert(self@.edges.take(j + 1).last() == e@);
                    assert(edge_pairs(self@.edges.take(j + 1)) == p.push(q));
                    assert(p.push(q).drop_last() == p);
                }
                push_text(&mut out, "  ");
                push_dot_quote(&mut out, e.from.as_str());
                push_text(&mut out, " -> ");
                push_dot_quote(&mut out, e.to.as_str());
                push_text(&mut out, ";\n");
                last = Some((&e.from, &e.to));
            }
            j = j + 1;
        }
        assert(self@.edges.take(ne as int) == self@.edges);
        push_text(&mut out, "}\n");
        string_of(&out)
    }
}

} // verus!
