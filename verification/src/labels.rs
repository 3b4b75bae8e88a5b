//! Maps keyed by label, listed in the order of their labels.
use vstd::prelude::*;

use crate::text::chars_of;

verus! {

/// `a` and `b` agree before index `i`, and there `a` ends or holds the lesser
/// character.
pub open spec fn falls_short_at(a: Seq<char>, b: Seq<char>, i: int) -> bool {
    &&& 0 <= i <= a.len()
    &&& i < b.len()
    &&& forall|j: int| 0 <= j < i ==> a[j] == b[j]
    &&& i == a.len() || a[i] < b[i]
}

/// `a` stands before `b` in lexicographic order.
pub open spec fn before(a: Seq<char>, b: Seq<char>) -> bool {
    exists|i: int| falls_short_at(a, b, i)
}

/// No label stands before itself.
pub proof fn lemma_before_irreflexive(a: Seq<char>)
    ensures
        !before(a, a),
{
}

/// The order is transitive.
pub proof fn lemma_before_transitive(a: Seq<char>, b: Seq<char>, c: Seq<char>)
    requires
        before(a, b),
        before(b, c),
    ensures
        before(a, c),
{
    let i = choose|i: int| falls_short_at(a, b, i);
    let j = choose|j: int| falls_short_at(b, c, j);
    let k = if i < j {
        i
    } else {
        j
    };
    assert(falls_short_at(a, c, k));
}

/// Of two labels that differ, one stands before the other.
pub proof fn lemma_before_total(a: Seq<char>, b: Seq<char>)
    ensures
        a == b || before(a, b) || before(b, a),
{
    lemma_before_total_from(a, b, 0);
}

proof fn lemma_before_total_from(a: Seq<char>, b: Seq<char>, i: int)
    requires
        0 <= i <= a.len(),
        i <= b.len(),
        forall|j: int| 0 <= j < i ==> a[j] == b[j],
    ensures
        a == b || before(a, b) || before(b, a),
    decreases a.len() - i,
{
    if i == a.len() || i == b.len() {
        if i < b.len() {
            assert(falls_short_at(a, b, i));
        } else if i < a.len() {
            assert(falls_short_at(b, a, i));
        } else {
            assert(a =~= b);
        }
    } else if a[i] == b[i] {
        lemma_before_total_from(a, b, i + 1);
    } else if a[i] < b[i] {
        assert(falls_short_at(a, b, i));
    } else {
        assert(falls_short_at(b, a, i));
    }
}

/// How one label stands to another.
pub enum Place {
    /// It comes first.
    Before,
    /// It is the same.
    Same,
    /// It comes later.
    After,
}

/// How `a` stands to `b` in lexicographic order.
pub fn place(a: &str, b: &str) -> (r: Place)
    ensures
        match r {
            Place::Before => before(a@, b@),
            Place::Same => a@ == b@,
            Place::After => before(b@, a@),
        },
{
    let x = chars_of(a);
    let y = chars_of(b);
    let mut i: usize = 0;
    while i < x.len() && i < y.len() && x[i] == y[i]
        invariant
            x@ == a@,
            y@ == b@,
            i <= x@.len(),
            i <= y@.len(),
            forall|j: int| 0 <= j < i ==> x@[j] == y@[j],
        decreases x@.len() - i,
    {
        i += 1;
    }
    if i < y.len() && (i == x.len() || x[i] < y[i]) {
        assert(falls_short_at(a@, b@, i as int));
        Place::Before
    } else if i < x.len() {
        assert(falls_short_at(b@, a@, i as int));
        Place::After
    } else {
        assert(a@ =~= b@);
        Place::Same
    }
}

/// Labels increase along the listing, so none occurs twice.
pub open spec fn sorted<V>(s: Seq<(Seq<char>, V)>) -> bool {
    forall|i: int, j: int| 0 <= i < j < s.len() ==> before(#[trigger] s[i].0, #[trigger] s[j].0)
}

/// The map that a listing denotes; a later entry replaces an earlier one.
pub open spec fn to_map<V>(s: Seq<(Seq<char>, V)>) -> Map<Seq<char>, V>
    decreases s.len(),
{
    if s.len() == 0 {
        Map::empty()
    } else {
        to_map(s.drop_last()).insert(s.last().0, s.last().1)
    }
}

/// The map that a listing denotes has the listed labels and no others.
pub proof fn lemma_to_map_dom<V>(s: Seq<(Seq<char>, V)>, k: Seq<char>)
    ensures
        to_map(s).contains_key(k) <==> exists|i: int| 0 <= i < s.len() && #[trigger] s[i].0 == k,
    decreases s.len(),
{
    if s.len() > 0 {
        lemma_to_map_dom(s.drop_last(), k);
        if exists|i: int| 0 <= i < s.len() && #[trigger] s[i].0 == k {
            let i = choose|i: int| 0 <= i < s.len() && #[trigger] s[i].0 == k;
            if i < s.len() - 1 {
                assert(s.drop_last()[i].0 == k);
            }
        }
        if to_map(s.drop_last()).contains_key(k) {
            let i = choose|i: int|
                0 <= i < s.drop_last().len() && #[trigger] s.drop_last()[i].0 == k;
            assert(s[i].0 == k);
        }
    }
}

/// In a sorted listing each entry is the map's value at its label.
pub proof fn lemma_to_map_at<V>(s: Seq<(Seq<char>, V)>, i: int)
    requires
        sorted(s),
        0 <= i < s.len(),
    ensures
        to_map(s).contains_key(s[i].0),
        to_map(s)[s[i].0] == s[i].1,
    decreases s.len(),
{
    if i < s.len() - 1 {
        lemma_sorted_prefix(s);
        lemma_to_map_at(s.drop_last(), i);
        assert(before(s[i].0, s[s.len() - 1].0));
        lemma_before_irreflexive(s[i].0);
    }
}

/// Two sorted listings of the same map are the same: the order in which series
/// are listed depends on nothing but their labels.
pub proof fn lemma_listing_unique<V>(a: Seq<(Seq<char>, V)>, b: Seq<(Seq<char>, V)>)
    requires
        sorted(a),
        sorted(b),
        to_map(a) == to_map(b),
    ensures
        a == b,
    decreases a.len(),
{
    if a.len() == 0 {
        if b.len() > 0 {
            lemma_to_map_at(b, 0);
        }
        assert(a =~= b);
    } else {
        let x = a.last().0;
        lemma_to_map_at(a, a.len() - 1);
        lemma_to_map_dom(b, x);
        let j = choose|j: int| 0 <= j < b.len() && #[trigger] b[j].0 == x;
        let y = b.last().0;
        lemma_to_map_at(b, b.len() - 1);
        lemma_to_map_dom(a, y);
        let i = choose|i: int| 0 <= i < a.len() && #[trigger] a[i].0 == y;
        if x != y {
            assert(before(b[j].0, b[b.len() - 1].0));
            assert(before(a[i].0, a[a.len() - 1].0));
            lemma_before_transitive(x, y, x);
            lemma_before_irreflexive(x);
        }
        lemma_sorted_prefix(a);
        lemma_sorted_prefix(b);
        assert(to_map(a.drop_last()) =~= to_map(a).remove(x));
        assert(to_map(b.drop_last()) =~= to_map(b).remove(x));
        lemma_listing_unique(a.drop_last(), b.drop_last());
        assert(a =~= a.drop_last().push(a.last()));
        assert(b =~= b.drop_last().push(b.last()));
    }
}

/// A sorted listing without its last entry is sorted, and lacks the last label.
pub proof fn lemma_sorted_prefix<V>(s: Seq<(Seq<char>, V)>)
    requires
        sorted(s),
        s.len() > 0,
    ensures
        sorted(s.drop_last()),
        !to_map(s.drop_last()).contains_key(s.last().0),
{
    let p = s.drop_last();
    assert forall|a: int, b: int| 0 <= a < b < p.len() implies before(
        #[trigger] p[a].0,
        #[trigger] p[b].0,
    ) by {
        assert(before(s[a].0, s[b].0));
    }
    lemma_to_map_dom(p, s.last().0);
    if to_map(p).contains_key(s.last().0) {
        let i = choose|i: int| 0 <= i < p.len() && #[trigger] p[i].0 == s.last().0;
        assert(before(s[i].0, s[s.len() - 1].0));
        lemma_before_irreflexive(s[i].0);
    }
}

/// Replacing the value of one entry keeps the listing sorted and changes the map
/// at that label only.
proof fn lemma_replace<V>(s: Seq<(Seq<char>, V)>, i: int, v: V)
    requires
        sorted(s),
        0 <= i < s.len(),
    ensures
        sorted(s.update(i, (s[i].0, v))),
        to_map(s.update(i, (s[i].0, v))) == to_map(s).insert(s[i].0, v),
    decreases s.len(),
{
    let t = s.update(i, (s[i].0, v));
    assert forall|a: int, b: int| 0 <= a < b < t.len() implies before(
        #[trigger] t[a].0,
        #[trigger] t[b].0,
    ) by {
        assert(before(s[a].0, s[b].0));
    }
    lemma_sorted_prefix(s);
    if i < s.len() - 1 {
        lemma_replace(s.drop_last(), i, v);
        assert(t.drop_last() =~= s.drop_last().update(i, (s[i].0, v)));
        assert(before(s[i].0, s[s.len() - 1].0));
        lemma_before_irreflexive(s[i].0);
        assert(to_map(t) =~= to_map(s).insert(s[i].0, v));
    } else {
        assert(t.drop_last() =~= s.drop_last());
        assert(to_map(t) =~= to_map(s).insert(s[i].0, v));
    }
}

/// Placing a new entry where its label belongs keeps the listing sorted and
/// adds it to the map.
pub proof fn lemma_place<V>(s: Seq<(Seq<char>, V)>, at: int, k: Seq<char>, v: V)
    requires
        sorted(s),
        0 <= at <= s.len(),
        forall|i: int| 0 <= i < at ==> before(#[trigger] s[i].0, k),
        forall|i: int| at <= i < s.len() ==> before(k, #[trigger] s[i].0),
    ensures
        sorted(s.insert(at, (k, v))),
        to_map(s.insert(at, (k, v))) == to_map(s).insert(k, v),
    decreases s.len(),
{
    let t = s.insert(at, (k, v));
    assert forall|a: int, b: int| 0 <= a < b < t.len() implies before(
        #[trigger] t[a].0,
        #[trigger] t[b].0,
    ) by {
        let x = if a < at {
            a
        } else {
            a - 1
        };
        let y = if b < at {
            b
        } else {
            b - 1
        };
        if a == at {
            assert(before(k, s[y].0));
        } else if b == at {
            assert(before(s[x].0, k));
        } else {
            assert(before(s[x].0, s[y].0));
        }
    }
    if at == s.len() {
        assert(t.drop_last() =~= s);
    } else {
        lemma_sorted_prefix(s);
        lemma_place(s.drop_last(), at, k, v);
        assert(t.drop_last() =~= s.drop_last().insert(at, (k, v)));
        assert(before(k, s[s.len() - 1].0));
        lemma_before_irreflexive(k);
        assert(to_map(t) =~= to_map(s).insert(k, v));
    }
}

/// The place where a label belongs in a sorted listing that lacks it.
pub proof fn lemma_has_place<V>(s: Seq<(Seq<char>, V)>, k: Seq<char>) -> (at: int)
    requires
        sorted(s),
        !to_map(s).contains_key(k),
    ensures
        0 <= at <= s.len(),
        forall|i: int| 0 <= i < at ==> before(#[trigger] s[i].0, k),
        forall|i: int| at <= i < s.len() ==> before(k, #[trigger] s[i].0),
    decreases s.len(),
{
    if s.len() == 0 {
        0
    } else {
        let p = s.drop_last();
        let last = s.last().0;
        lemma_sorted_prefix(s);
        lemma_before_total(last, k);
        if before(last, k) {
            assert forall|i: int| 0 <= i < s.len() implies before(#[trigger] s[i].0, k) by {
                if i < s.len() - 1 {
                    assert(before(s[i].0, s[s.len() - 1].0));
                    lemma_before_transitive(s[i].0, last, k);
                }
            }
            s.len() as int
        } else {
            let at = lemma_has_place(p, k);
            assert forall|i: int| 0 <= i < at implies before(#[trigger] s[i].0, k) by {
                assert(p[i] == s[i]);
            }
            assert forall|i: int| at <= i < s.len() implies before(k, #[trigger] s[i].0) by {
                if i < p.len() {
                    assert(p[i] == s[i]);
                }
            }
            at
        }
    }
}

/// The entries of a map in the order of their labels.
pub open spec fn listing_of<V>(m: Map<Seq<char>, V>) -> Seq<(Seq<char>, V)> {
    choose|s: Seq<(Seq<char>, V)>| sorted(s) && #[trigger] to_map(s) == m
}

/// A finite map has a listing in the order of its labels.
pub proof fn lemma_listing_of<V>(m: Map<Seq<char>, V>)
    requires
        m.dom().finite(),
    ensures
        sorted(listing_of(m)),
        to_map(listing_of(m)) == m,
{
    let s = lemma_listing_exists(m);
    assert(sorted(s) && to_map(s) == m);
}

proof fn lemma_listing_exists<V>(m: Map<Seq<char>, V>) -> (s: Seq<(Seq<char>, V)>)
    requires
        m.dom().finite(),
    ensures
        sorted(s),
        to_map(s) == m,
    decreases m.dom().len(),
{
    if m.dom().len() == 0 {
        let s = Seq::<(Seq<char>, V)>::empty();
        assert(m.dom() =~= Set::empty());
        assert(to_map(s) =~= m);
        s
    } else {
        let k = m.dom().choose();
        let rest = m.remove(k);
        assert(rest.dom() =~= m.dom().remove(k));
        let t = lemma_listing_exists(rest);
        let at = lemma_has_place(t, k);
        lemma_place(t, at, k, m[k]);
        assert(rest.insert(k, m[k]) =~= m);
        t.insert(at, (k, m[k]))
    }
}

/// A sorted listing has as many entries as its map.
pub proof fn lemma_listing_len<V>(s: Seq<(Seq<char>, V)>)
    requires
        sorted(s),
    ensures
        to_map(s).dom().finite(),
        to_map(s).dom().len() == s.len(),
    decreases s.len(),
{
    if s.len() > 0 {
        lemma_sorted_prefix(s);
        lemma_listing_len(s.drop_last());
        assert(to_map(s).dom() =~= to_map(s.drop_last()).dom().insert(s.last().0));
    }
}

/// The listing that a vector of labels and values holds.
pub open spec fn listed<V>(v: Seq<(String, V)>) -> Seq<(Seq<char>, V)> {
    v.map_values(|e: (String, V)| (e.0@, e.1))
}

/// A map from labels to values, listed in the order of the labels.
pub struct LabelMap<V> {
    items: Vec<(String, V)>,
}

impl<V> View for LabelMap<V> {
    type V = Map<Seq<char>, V>;

    open spec fn view(&self) -> Map<Seq<char>, V> {
        to_map(self.listing())
    }
}

impl<V> LabelMap<V> {
    /// The entries in the order in which they are listed.
    pub closed spec fn listing(&self) -> Seq<(Seq<char>, V)> {
        listed(self.items@)
    }

    /// The labels increase along the listing.
    pub open spec fn wf(&self) -> bool {
        sorted(self.listing())
    }

    /// The listing is that of the map.
    pub proof fn lemma_listing(&self)
        requires
            self.wf(),
        ensures
            self@.dom().finite(),
            self@.dom().len() == self.listing().len(),
            self.listing() == listing_of(self@),
    {
        lemma_listing_len(self.listing());
        lemma_listing_of(self@);
        lemma_listing_unique(self.listing(), listing_of(self@));
    }

    /// A map without entries.
    pub fn new() -> (r: Self)
        ensures
            r.wf(),
            r.listing() == Seq::<(Seq<char>, V)>::empty(),
            r@ == Map::<Seq<char>, V>::empty(),
    {
        let r = LabelMap { items: Vec::new() };
        assert(r.listing() =~= Seq::empty());
        r
    }

    /// The map that the entries denote; a later entry replaces an earlier one.
    pub fn from_entries(entries: &Vec<(String, V)>) -> (r: Self) where V: Copy
        ensures
            r.wf(),
            r@ == to_map(listed(entries@)),
    {
        let mut r = LabelMap::new();
        let mut i: usize = 0;
        let ghost all = listed(entries@);
        assert(all.take(0) =~= seq![]);
        while i < entries.len()
            invariant
                i <= entries@.len() == all.len(),
                all == listed(entries@),
                r.wf(),
                r@ == to_map(all.take(i as int)),
            decreases entries@.len() - i,
        {
            r.insert(entries[i].0.as_str(), entries[i].1);
            assert(all.take(i + 1).drop_last() =~= all.take(i as int));
            i += 1;
        }
        assert(all.take(all.len() as int) =~= all);
        r
    }

    /// The entries, in the order in which they are listed.
    pub fn entries(&self) -> (r: &Vec<(String, V)>)
        ensures
            listed(r@) == self.listing(),
    {
        &self.items
    }

    /// The number of entries.
    pub fn len(&self) -> (r: usize)
        ensures
            r == self.listing().len(),
    {
        self.items.len()
    }

    /// The label of entry `i`.
    pub fn label_at(&self, i: usize) -> (r: &str)
        requires
            i < self.listing().len(),
        ensures
            r@ == self.listing()[i as int].0,
    {
        self.items[i].0.as_str()
    }

    /// The value of entry `i`.
    pub fn value_at(&self, i: usize) -> (r: &V)
        requires
            i < self.listing().len(),
        ensures
            *r == self.listing()[i as int].1,
    {
        &self.items[i].1
    }

    /// Where `label` stands in the listing, or belongs in it, and whether it is there.
    fn find(&self, label: &str) -> (r: (usize, bool))
        requires
            self.wf(),
        ensures
            r.0 <= self.listing().len(),
            forall|i: int| 0 <= i < r.0 ==> before(#[trigger] self.listing()[i].0, label@),
            r.1 ==> r.0 < self.listing().len() && self.listing()[r.0 as int].0 == label@,
            !r.1 ==> forall|i: int|
                r.0 <= i < self.listing().len() ==> before(label@, #[trigger] self.listing()[i].0),
            r.1 == self@.contains_key(label@),
    {
        let mut i: usize = 0;
        while i < self.items.len()
            invariant
                self.wf(),
                i <= self.items@.len() == self.listing().len(),
                forall|k: int| 0 <= k < i ==> before(#[trigger] self.listing()[k].0, label@),
            decreases self.items@.len() - i,
        {
            let ghost here = self.listing()[i as int].0;
            match place(self.items[i].0.as_str(), label) {
                Place::Before => {
                    i += 1;
                },
                Place::Same => {
                    proof {
                        lemma_to_map_at(self.listing(), i as int);
                    }
                    return (i, true);
                },
                Place::After => {
                    proof {
                        assert forall|k: int| i <= k < self.listing().len() implies before(
                            label@,
                            #[trigger] self.listing()[k].0,
                        ) by {
                            if k > i {
                                lemma_before_transitive(label@, here, self.listing()[k].0);
                            }
                        }
                        self.lemma_absent(label@, i as int);
                    }
                    return (i, false);
                },
            }
        }
        proof {
            self.lemma_absent(label@, i as int);
        }
        (i, false)
    }

    proof fn lemma_absent(&self, label: Seq<char>, at: int)
        requires
            self.wf(),
            0 <= at <= self.listing().len(),
            forall|i: int| 0 <= i < at ==> before(#[trigger] self.listing()[i].0, label),
            forall|i: int|
                at <= i < self.listing().len() ==> before(label, #[trigger] self.listing()[i].0),
        ensures
            !self@.contains_key(label),
    {
        lemma_to_map_dom(self.listing(), label);
        lemma_before_irreflexive(label);
    }

    /// Whether `label` has an entry.
    pub fn contains(&self, label: &str) -> (r: bool)
        requires
            self.wf(),
        ensures
            r == self@.contains_key(label@),
    {
        self.find(label).1
    }

    /// The value of `label`, if it has an entry.
    pub fn get(&self, label: &str) -> (r: Option<&V>)
        requires
            self.wf(),
        ensures
            match r {
                Some(v) => self@.contains_key(label@) && *v == self@[label@],
                None => !self@.contains_key(label@),
            },
    {
        let (i, found) = self.find(label);
        if found {
            proof {
                lemma_to_map_at(self.listing(), i as int);
            }
            Some(&self.items[i].1)
        } else {
            None
        }
    }

    /// The value of `label`, for writing.
    pub fn get_mut(&mut self, label: &str) -> (r: Option<&mut V>)
        requires
            old(self).wf(),
        ensures
            final(self).wf(),
            final(self).listing().len() == old(self).listing().len(),
            match r {
                Some(v) => {
                    &&& old(self)@.contains_key(label@)
                    &&& *v == old(self)@[label@]
                    &&& final(self)@ == old(self)@.insert(label@, *final(v))
                },
                None => !old(self)@.contains_key(label@) && *final(self) == *old(self),
            },
    {
        let (i, found) = self.find(label);
        if found {
            let ghost s = self.listing();
            let ghost items = self.items@;
            proof {
                lemma_to_map_at(s, i as int);
                assert forall|m: Self|
                    m.items@ == items.update(
                        i as int,
                        (items[i as int].0, m.items@[i as int].1),
                    ) implies sorted(#[trigger] m.listing()) && m.listing().len() == s.len() && to_map(
                    m.listing(),
                ) == to_map(s).insert(label@, m.items@[i as int].1) by {
                    lemma_replace(s, i as int, m.items@[i as int].1);
                    assert(m.listing() =~= s.update(
                        i as int,
                        (s[i as int].0, m.items@[i as int].1),
                    ));
                }
            }
            Some(&mut self.items[i].1)
        } else {
            None
        }
    }

    /// Gives `label` the value `value`, in place of what it had.
    pub fn insert(&mut self, label: &str, value: V)
        requires
            old(self).wf(),
        ensures
            final(self).wf(),
            final(self)@ == old(self)@.insert(label@, value),
            final(self).listing().len() == old(self).listing().len() + if old(self)@.contains_key(
                label@,
            ) {
                0int
            } else {
                1
            },
    {
        let (i, found) = self.find(label);
        let ghost s = self.listing();
        if found {
            self.items[i].1 = value;
            proof {
                lemma_replace(s, i as int, value);
                assert(self.listing() =~= s.update(i as int, (s[i as int].0, value)));
            }
        } else {
            self.items.insert(i, (label.to_owned(), value));
            proof {
                lemma_place(s, i as int, label@, value);
                assert(self.listing() =~= s.insert(i as int, (label@, value)));
            }
        }
    }
}

/// Labels are in alphabetical order: the first character in which two differ decides,
/// and where one begins with the other, the shorter comes first.
pub proof fn lemma_order_is_alphabetical(
    start: Seq<char>,
    x: char,
    y: char,
    a: Seq<char>,
    b: Seq<char>,
)
    requires
        x < y,
    ensures
        before(start.push(x) + a, start.push(y) + b),
        !before(start.push(y) + b, start.push(x) + a),
        before(start, start.push(x) + a),
        !before(start.push(x) + a, start),
{
    let p = start.push(x) + a;
    let q = start.push(y) + b;
    assert(falls_short_at(p, q, start.len() as int));
    assert(falls_short_at(start, p, start.len() as int));
    if before(q, p) {
        lemma_before_transitive(p, q, p);
        lemma_before_irreflexive(p);
    }
    if before(p, start) {
        lemma_before_transitive(p, start, p);
        lemma_before_irreflexive(p);
    }
}

/// Of several entries under one label the last decides.
pub proof fn lemma_last_entry_decides<V>(s: Seq<(Seq<char>, V)>, i: int)
    requires
        0 <= i < s.len(),
        forall|j: int| i < j < s.len() ==> (#[trigger] s[j]).0 != s[i].0,
    ensures
        to_map(s).contains_key(s[i].0),
        to_map(s)[s[i].0] == s[i].1,
    decreases s.len(),
{
    if i < s.len() - 1 {
        assert(s[s.len() - 1].0 != s[i].0);
        let p = s.drop_last();
        assert forall|j: int| i < j < p.len() implies (#[trigger] p[j]).0 != p[i].0 by {
            assert(s[j].0 != s[i].0);
        }
        lemma_last_entry_decides(p, i);
    }
}

/// Entries are told as they are, in order.
pub proof fn lemma_entries_are_told<V>(v: Seq<(String, V)>, i: int)
    requires
        0 <= i < v.len(),
    ensures
        listed(v).len() == v.len(),
        listed(v)[i].0 == v[i].0@,
        listed(v)[i].1 == v[i].1,
{
}

} // verus!
