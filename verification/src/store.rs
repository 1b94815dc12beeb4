//! The element store: discovered elements keyed by their unique name.
//!
//! The store is a sequence of elements whose names are pairwise distinct;
//! its mathematical content is the map from each name to its element.

use vstd::prelude::*;
use vstd::string::*;
use crate::element::Element;
use crate::element::ElementV;
use crate::element::SerializedElement;
use crate::element::SerializedElementV;
use crate::order::lemma_seq_le_total;
use crate::order::lemma_seq_le_transitive;
use crate::order::seq_le;
use crate::order::str_eq;
use crate::order::str_le;
use vstd::map::*;

verus! {

/// The contents of a sequence of elements as a map from name to element;
/// with duplicate names the later entry wins.
pub open spec fn elems_map(s: Seq<ElementV>) -> Map<Seq<char>, ElementV>
    decreases s.len(),
{
    if s.len() == 0 {
        Map::empty()
    } else {
        elems_map(s.drop_last()).insert(s.last().result, s.last())
    }
}

/// No two elements of the sequence share a name.
pub open spec fn unique_names(s: Seq<ElementV>) -> bool {
    forall|i: int, j: int| 0 <= i < j < s.len() ==> s[i].result != s[j].result
}

/// The elements come in ascending name order: the store's natural key
/// order, in which it is exported.
pub open spec fn names_sorted(s: Seq<ElementV>) -> bool {
    forall|i: int, j: int| 0 <= i < j < s.len() ==> seq_le(s[i].result, s[j].result)
}

/// Whether some element of the sequence carries the given name.
pub open spec fn has_name(s: Seq<ElementV>, name: Seq<char>) -> bool {
    exists|i: int| 0 <= i < s.len() && s[i].result == name
}

/// A name is a key of `elems_map(s)` exactly when an element of `s` has it.
pub proof fn lemma_elems_map_domain(s: Seq<ElementV>, name: Seq<char>)
    ensures
        elems_map(s).contains_key(name) <==> has_name(s, name),
    decreases s.len(),
{
    if s.len() > 0 {
        lemma_elems_map_domain(s.drop_last(), name);
        if s.last().result == name {
            assert(s[s.len() - 1].result == name);
        } else {
            if has_name(s, name) {
                let i = choose|i: int| 0 <= i < s.len() && s[i].result == name;
                assert(s.drop_last()[i].result == name);
            }
            if has_name(s.drop_last(), name) {
                let i = choose|i: int|
                    0 <= i < s.drop_last().len() && s.drop_last()[i].result == name;
                assert(s[i].result == name);
            }
        }
    }
}

/// Every value of `elems_map(s)` sits under its own name.
pub proof fn lemma_elems_map_key_result(s: Seq<ElementV>, name: Seq<char>)
    requires
        elems_map(s).contains_key(name),
    ensures
        elems_map(s)[name].result == name,
    decreases s.len(),
{
    if s.len() > 0 && s.last().result != name {
        lemma_elems_map_key_result(s.drop_last(), name);
    }
}

/// With pairwise distinct names, `elems_map(s)` maps each element's name to
/// that element.
pub proof fn lemma_elems_map_get(s: Seq<ElementV>, i: int)
    requires
        unique_names(s),
        0 <= i < s.len(),
    ensures
        elems_map(s).contains_key(s[i].result),
        elems_map(s)[s[i].result] == s[i],
    decreases s.len(),
{
    if i < s.len() - 1 {
        assert(s.drop_last()[i] == s[i]);
        lemma_elems_map_get(s.drop_last(), i);
        assert(s.last().result != s[i].result);
    }
}

/// The store of discovered elements, keyed by name.
pub struct ElementStore {
    elems: Vec<Element>,
}

impl View for ElementStore {
    type V = Map<Seq<char>, ElementV>;

    open spec fn view(&self) -> Map<Seq<char>, ElementV> {
        elems_map(self.seq_view())
    }
}

impl ElementStore {
    /// The stored elements, in store order.
    pub closed spec fn seq_view(&self) -> Seq<ElementV> {
        self.elems@.map_values(|e: Element| e@)
    }

    /// Well-formed: no two stored elements share a name, and the elements
    /// sit in ascending name order.
    pub open spec fn wf(&self) -> bool {
        unique_names(self.seq_view()) && names_sorted(self.seq_view())
    }

    /// An empty store.
    pub fn new() -> (r: ElementStore)
        ensures
            r.wf(),
            r.seq_view() =~= Seq::<ElementV>::empty(),
            r@ =~= Map::<Seq<char>, ElementV>::empty(),
    {
        ElementStore { elems: Vec::new() }
    }

    /// How many elements are stored.
    pub fn len(&self) -> (n: usize)
        ensures
            n == self.seq_view().len(),
    {
        self.elems.len()
    }

    /// The name of the element at a position of the store order.
    pub fn name_at(&self, i: usize) -> (name: &String)
        requires
            i < self.seq_view().len(),
        ensures
            name@ == self.seq_view()[i as int].result,
    {
        &self.elems[i].result
    }

    /// The element at a position of the store order.
    pub fn element_at(&self, i: usize) -> (e: &Element)
        requires
            i < self.seq_view().len(),
        ensures
            e@ == self.seq_view()[i as int],
    {
        &self.elems[i]
    }

    /// Looks a name up.
    pub fn get(&self, name: &str) -> (r: Option<&Element>)
        requires
            self.wf(),
        ensures
            match r {
                Some(e) => self@.contains_key(name@) && e@ == self@[name@],
                None => !self@.contains_key(name@),
            },
    {
        let n = self.elems.len();
        let mut i: usize = 0;
        while i < n
            invariant
                i <= n,
                n == self.elems@.len(),
                self.wf(),
                forall|k: int| 0 <= k < i ==> self.seq_view()[k].result != name@,
            decreases n - i,
        {
            if str_eq(self.elems[i].result.as_str(), name) {
                proof {
                    lemma_elems_map_get(self.seq_view(), i as int);
                }
                return Some(&self.elems[i]);
            }
            i = i + 1;
        }
        proof {
            lemma_elems_map_domain(self.seq_view(), name@);
        }
        None
    }

    /// Whether a name is already stored.
    pub fn contains_name(&self, name: &str) -> (r: bool)
        requires
            self.wf(),
        ensures
            r == self@.contains_key(name@),
    {
        self.get(name).is_some()
    }

    /// The position at which a name belongs in the store's ascending name
    /// order: the first position whose name does not sort before `name`.
    fn insert_pos(&self, name: &str) -> (pos: usize)
        ensures
            pos <= self.seq_view().len(),
            forall|k: int|
                0 <= k < pos ==> seq_le(#[trigger] self.seq_view()[k].result, name@),
            pos < self.seq_view().len() ==> !seq_le(
                self.seq_view()[pos as int].result,
                name@,
            ),
    {
        let n = self.elems.len();
        let mut pos: usize = 0;
        while pos < n
            invariant
                pos <= n,
                n == self.elems@.len(),
                forall|k: int|
                    0 <= k < pos ==> seq_le(#[trigger] self.seq_view()[k].result, name@),
            decreases n - pos,
        {
            if !str_le(self.elems[pos].result.as_str(), name) {
                return pos;
            }
            pos = pos + 1;
        }
        pos
    }

    /// Inserts an element whose name is not yet stored, keeping the store
    /// in ascending name order.
    pub fn insert_new(&mut self, e: Element)
        requires
            old(self).wf(),
            !old(self)@.contains_key(e@.result),
        ensures
            final(self).wf(),
            final(self).seq_view().len() == old(self).seq_view().len() + 1,
            final(self)@ == old(self)@.insert(e@.result, e@),
    {
        proof {
            lemma_elems_map_domain(old(self).seq_view(), e@.result);
        }
        let ghost s_old = self.seq_view();
        let ghost v_old = self.elems@;
        let pos = self.insert_pos(e.result.as_str());
        self.elems.insert(pos, e);
        proof {
            let s_new = self.seq_view();
            let p = pos as int;
            v_old.insert_ensures(p, e);
            s_old.insert_ensures(p, e@);
            assert forall|i: int| 0 <= i < s_new.len() implies s_new[i] == s_old.insert(
                p,
                e@,
            )[i] by {
                if i < p {
                    assert(self.elems@[i] == v_old[i]);
                } else if i == p {
                    assert(self.elems@[p] == e);
                } else {
                    assert(self.elems@[(i - 1) + 1] == v_old[i - 1]);
                    assert(s_old.insert(p, e@)[(i - 1) + 1] == s_old[i - 1]);
                }
            }
            assert(s_new =~= s_old.insert(p, e@));
            // where each element of the new order comes from
            assert forall|i: int| 0 <= i < s_new.len() implies s_new[i] == (if i < p {
                s_old[i]
            } else if i == p {
                e@
            } else {
                s_old[i - 1]
            }) by {
                if i > p {
                    assert(s_old.insert(p, e@)[(i - 1) + 1] == s_old[i - 1]);
                }
            }
            // the inserted name is fresh
            assert(forall|k: int| 0 <= k < s_old.len() ==> (#[trigger] s_old[k].result)
                != e@.result);
            // names stay pairwise distinct
            assert forall|i: int, j: int| 0 <= i < j < s_new.len() implies s_new[i].result
                != s_new[j].result by {
                if i == p {
                    assert(s_old[j - 1].result != e@.result);
                } else if j == p {
                    assert(s_old[i].result != e@.result);
                } else {
                    let i_old: int = if i < p {
                        i
                    } else {
                        i - 1
                    };
                    let j_old: int = if j < p {
                        j
                    } else {
                        j - 1
                    };
                    assert(s_old[i_old].result != s_old[j_old].result);
                }
            }
            assert(unique_names(s_new));
            // names stay in ascending order
            assert forall|i: int, j: int| 0 <= i < j < s_new.len() implies seq_le(
                s_new[i].result,
                s_new[j].result,
            ) by {
                if j == p {
                    assert(seq_le(s_old[i].result, e@.result));
                } else if i == p {
                    lemma_seq_le_total(s_old[p].result, e@.result);
                    assert(seq_le(e@.result, s_old[p].result));
                    if j - 1 > p {
                        assert(seq_le(s_old[p].result, s_old[j - 1].result));
                        lemma_seq_le_transitive(
                            e@.result,
                            s_old[p].result,
                            s_old[j - 1].result,
                        );
                    }
                } else if i < p && j > p {
                    assert(seq_le(s_old[i].result, e@.result));
                    if j - 1 > i {
                        assert(seq_le(s_old[i].result, s_old[j - 1].result));
                    }
                } else if j < p {
                    assert(seq_le(s_old[i].result, s_old[j].result));
                } else {
                    assert(seq_le(s_old[i - 1].result, s_old[j - 1].result));
                }
            }
            // the map gains exactly the one binding
            assert_maps_equal!(
                elems_map(s_new),
                elems_map(s_old).insert(e@.result, e@),
                k => {
                    lemma_elems_map_domain(s_new, k);
                    lemma_elems_map_domain(s_old, k);
                    if k == e@.result {
                        assert(s_new[p].result == k);
                        assert(has_name(s_new, k));
                        lemma_elems_map_get(s_new, p);
                    } else {
                        if has_name(s_new, k) {
                            let i = choose|i: int|
                                0 <= i < s_new.len() && s_new[i].result == k;
                            let i_old: int = if i < p { i } else { i - 1 };
                            assert(s_old[i_old].result == k);
                            lemma_elems_map_get(s_new, i);
                            lemma_elems_map_get(s_old, i_old);
                        }
                        if has_name(s_old, k) {
                            let i = choose|i: int|
                                0 <= i < s_old.len() && s_old[i].result == k;
                            let i_new: int = if i < p { i } else { i + 1 };
                            assert(s_new[i_new].result == k);
                            lemma_elems_map_get(s_new, i_new);
                            lemma_elems_map_get(s_old, i);
                        }
                    }
                }
            );
        }
    }

    /// An exact copy of the store.
    pub fn duplicate(&self) -> (r: ElementStore)
        ensures
            r.seq_view() == self.seq_view(),
            r@ == self@,
            r.wf() == self.wf(),
    {
        let n = self.elems.len();
        let mut v: Vec<Element> = Vec::new();
        let mut i: usize = 0;
        while i < n
            invariant
                i <= n,
                n == self.elems@.len(),
                v@.len() == i as int,
                forall|k: int| 0 <= k < i ==> v@[k] == self.elems@[k],
            decreases n - i,
        {
            v.push(self.elems[i].duplicate());
            i = i + 1;
        }
        let r = ElementStore { elems: v };
        proof {
            assert(r.elems@ =~= self.elems@);
        }
        r
    }

    /// Builds a store from loaded rows; with duplicate names the first row
    /// wins, so that rows with pairwise distinct names all come through.
    pub fn from_rows(rows: &Vec<Element>) -> (r: ElementStore)
        ensures
            r.wf(),
            r@ == elems_map(dedup_rows(rows@.map_values(|e: Element| e@))),
    {
        let ghost xs = rows@.map_values(|e: Element| e@);
        let mut store = ElementStore::new();
        let n = rows.len();
        let mut i: usize = 0;
        while i < n
            invariant
                i <= n,
                n == rows@.len(),
                xs == rows@.map_values(|e: Element| e@),
                store.wf(),
                store@ == elems_map(dedup_rows(xs.take(i as int))),
            decreases n - i,
        {
            proof {
                assert(xs.take(i as int + 1).drop_last() =~= xs.take(i as int));
                assert(xs.take(i as int + 1).last() == xs[i as int]);
                lemma_elems_map_domain(dedup_rows(xs.take(i as int)), xs[i as int].result);
            }
            if !store.contains_name(rows[i].result.as_str()) {
                store.insert_new(rows[i].duplicate());
                proof {
                    let p = dedup_rows(xs.take(i as int));
                    assert(dedup_rows(xs.take(i as int + 1)) == p.push(xs[i as int]));
                    assert(p.push(xs[i as int]).drop_last() =~= p);
                    assert(elems_map(p.push(xs[i as int])) == elems_map(p).insert(
                        xs[i as int].result,
                        xs[i as int],
                    ));
                }
            }
            i = i + 1;
        }
        proof {
            assert(xs.take(n as int) =~= xs);
        }
        store
    }

    /// Merges imported elements into the store: a new name is inserted, an
    /// identical element under a stored name changes nothing, and an element
    /// that differs from its stored namesake is a conflict that leaves the
    /// whole store untouched. On success the inserted elements come back in
    /// merge order.
    pub fn merge(&mut self, incoming: &Vec<Element>) -> (r: Result<
        Vec<Element>,
        MergeConflict,
    >)
        requires
            old(self).wf(),
        ensures
            final(self).wf(),
            match r {
                Ok(added) => {
                    &&& Some(final(self)@) == spec_merge(
                        old(self)@,
                        incoming@.map_values(|e: Element| e@),
                    )
                    &&& added@.map_values(|e: Element| e@) == spec_added(
                        old(self)@,
                        incoming@.map_values(|e: Element| e@),
                    )
                },
                Err(c) => {
                    &&& *final(self) == *old(self)
                    &&& spec_merge(old(self)@, incoming@.map_values(|e: Element| e@)) is None
                    &&& c.existing@.result == c.incoming@.result
                    &&& c.existing@ != c.incoming@
                },
            },
    {
        let ghost xs = incoming@.map_values(|e: Element| e@);
        let mut tmp = self.duplicate();
        let mut added: Vec<Element> = Vec::new();
        let n = incoming.len();
        let mut i: usize = 0;
        proof {
            assert(xs.skip(0) =~= xs);
            assert(added@.map_values(|e: Element| e@) =~= Seq::<ElementV>::empty());
            assert(Seq::<ElementV>::empty() + spec_added(tmp@, xs) =~= spec_added(tmp@, xs));
        }
        while i < n
            invariant
                i <= n,
                n == incoming@.len(),
                xs == incoming@.map_values(|e: Element| e@),
                *self == *old(self),
                self.wf(),
                tmp.wf(),
                spec_merge(old(self)@, xs) == spec_merge(tmp@, xs.skip(i as int)),
                spec_added(old(self)@, xs) == added@.map_values(|e: Element| e@) + spec_added(
                    tmp@,
                    xs.skip(i as int),
                ),
            decreases n - i,
        {
            proof {
                assert(xs.skip(i as int)[0] == xs[i as int]);
                assert(xs.skip(i as int).drop_first() =~= xs.skip(i as int + 1));
                if tmp@.contains_key(xs[i as int].result) {
                    lemma_elems_map_key_result(tmp.seq_view(), xs[i as int].result);
                }
            }
            let e = &incoming[i];
            match tmp.get(e.result.as_str()) {
                Some(x) => {
                    if !x.same_as(e) {
                        return Err(MergeConflict { existing: x.duplicate(), incoming: e.duplicate() });
                    }
                    proof {
                        assert(added@.map_values(|e: Element| e@) + spec_added(
                            tmp@,
                            xs.skip(i as int),
                        ) =~= added@.map_values(|e: Element| e@) + spec_added(
                            tmp@,
                            xs.skip(i as int + 1),
                        ));
                    }
                },
                None => {
                    tmp.insert_new(e.duplicate());
                    added.push(e.duplicate());
                    proof {
                        assert(added@.map_values(|e: Element| e@) =~= added@.map_values(
                            |e: Element| e@,
                        ).drop_last().push(xs[i as int]));
                        assert(added@.map_values(|e: Element| e@).drop_last() + (seq![
                            xs[i as int],
                        ] + spec_added(tmp@, xs.skip(i as int + 1))) =~= added@.map_values(
                            |e: Element| e@,
                        ) + spec_added(tmp@, xs.skip(i as int + 1)));
                    }
                },
            }
            i = i + 1;
        }
        proof {
            assert(xs.skip(n as int) =~= Seq::<ElementV>::empty());
            assert(added@.map_values(|e: Element| e@) + Seq::<ElementV>::empty() =~= added@
                .map_values(|e: Element| e@));
        }
        *self = tmp;
        Ok(added)
    }

    /// Flattens the store back into the page's local-storage shape, in the
    /// store's natural key order: ascending by name.
    pub fn export(&self) -> (out: Vec<SerializedElement>)
        ensures
            out@.map_values(|x: SerializedElement| x@) == spec_export(self.seq_view()),
            self.wf() ==> forall|i: int, j: int|
                #![trigger out@[i], out@[j]]
                0 <= i < j < out@.len() ==> seq_le(out@[i]@.text, out@[j]@.text),
    {
        let n = self.elems.len();
        let mut out: Vec<SerializedElement> = Vec::new();
        let mut i: usize = 0;
        while i < n
            invariant
                i <= n,
                n == self.elems@.len(),
                out@.len() == i as int,
                out@.map_values(|x: SerializedElement| x@) == spec_export(
                    self.seq_view().take(i as int),
                ),
            decreases n - i,
        {
            out.push(SerializedElement::from(self.elems[i].duplicate()));
            proof {
                let lhs = out@.map_values(|x: SerializedElement| x@);
                let rhs = spec_export(self.seq_view().take(i as int + 1));
                assert(out@.len() == i as int + 1);
                assert(self.seq_view().take(i as int + 1).len() == i as int + 1);
                assert(rhs.len() == i as int + 1);
                assert(lhs.len() == rhs.len());
                assert forall|k: int| 0 <= k < lhs.len() implies lhs[k] == rhs[k] by {
                    if k < i as int {
                        assert(lhs[k] == spec_export(self.seq_view().take(i as int))[k]);
                        assert(self.seq_view().take(i as int)[k] == self.seq_view().take(
                            i as int + 1,
                        )[k]);
                    } else {
                        assert(self.seq_view().take(i as int + 1)[k] == self.seq_view()[k]);
                    }
                }
                assert(lhs =~= rhs);
            }
            i = i + 1;
        }
        proof {
            assert(self.seq_view().take(n as int) =~= self.seq_view());
            if self.wf() {
                assert forall|i: int, j: int|
                    #![trigger out@[i], out@[j]]
                    0 <= i < j < out@.len() implies seq_le(out@[i]@.text, out@[j]@.text) by {
                    assert(out@.map_values(|x: SerializedElement| x@)[i] == out@[i]@);
                    assert(out@.map_values(|x: SerializedElement| x@)[j] == out@[j]@);
                    assert(out@[i]@.text == self.seq_view()[i].result);
                    assert(out@[j]@.text == self.seq_view()[j].result);
                    assert(seq_le(self.seq_view()[i].result, self.seq_view()[j].result));
                }
            }
        }
        out
    }
}

/// A merge conflict: the stored element and the imported element that share
/// a name but differ somewhere.
#[derive(Debug)]
pub struct MergeConflict {
    pub existing: Element,
    pub incoming: Element,
}

/// The result of merging a sequence of imported elements into a map, front
/// to back: `None` on the first element that differs from its stored
/// namesake, else the union.
pub open spec fn spec_merge(m: Map<Seq<char>, ElementV>, xs: Seq<ElementV>) -> Option<
    Map<Seq<char>, ElementV>,
>
    decreases xs.len(),
{
    if xs.len() == 0 {
        Some(m)
    } else {
        let e = xs[0];
        if m.contains_key(e.result) {
            if m[e.result] == e {
                spec_merge(m, xs.drop_first())
            } else {
                None
            }
        } else {
            spec_merge(m.insert(e.result, e), xs.drop_first())
        }
    }
}

/// The elements a merge inserts, in merge order (meaningful when the merge
/// succeeds).
pub open spec fn spec_added(m: Map<Seq<char>, ElementV>, xs: Seq<ElementV>) -> Seq<ElementV>
    decreases xs.len(),
{
    if xs.len() == 0 {
        Seq::empty()
    } else {
        let e = xs[0];
        if m.contains_key(e.result) {
            if m[e.result] == e {
                spec_added(m, xs.drop_first())
            } else {
                Seq::empty()
            }
        } else {
            seq![e] + spec_added(m.insert(e.result, e), xs.drop_first())
        }
    }
}

/// The page-side view of a sequence of elements.
pub open spec fn spec_export(s: Seq<ElementV>) -> Seq<SerializedElementV> {
    s.map_values(
        |e: ElementV| SerializedElementV { text: e.result, emoji: e.emoji, discovered: e.is_new },
    )
}

/// The internal view of a sequence of page-side elements.
pub open spec fn spec_import(s: Seq<SerializedElementV>) -> Seq<ElementV> {
    s.map_values(
        |x: SerializedElementV| ElementV { result: x.text, emoji: x.emoji, is_new: x.discovered },
    )
}

/// A merge only grows the map: every entry of the start map survives with
/// its value.
pub proof fn lemma_merge_extends(m: Map<Seq<char>, ElementV>, xs: Seq<ElementV>, m2: Map<
    Seq<char>,
    ElementV,
>)
    requires
        spec_merge(m, xs) == Some(m2),
    ensures
        forall|k: Seq<char>| #[trigger]
            m.contains_key(k) ==> m2.contains_key(k) && m2[k] == m[k],
    decreases xs.len(),
{
    if xs.len() > 0 {
        let e = xs[0];
        if m.contains_key(e.result) {
            lemma_merge_extends(m, xs.drop_first(), m2);
        } else {
            let m1 = m.insert(e.result, e);
            lemma_merge_extends(m1, xs.drop_first(), m2);
            assert forall|k: Seq<char>| #[trigger] m.contains_key(k) implies m2.contains_key(k)
                && m2[k] == m[k] by {
                assert(m1.contains_key(k));
                assert(m1[k] == m[k]);
            }
        }
    }
}

/// After a successful merge, every merged element sits in the result under
/// its name.
pub proof fn lemma_merge_covers(m: Map<Seq<char>, ElementV>, xs: Seq<ElementV>, m2: Map<
    Seq<char>,
    ElementV,
>)
    requires
        spec_merge(m, xs) == Some(m2),
    ensures
        forall|i: int|
            0 <= i < xs.len() ==> m2.contains_key(#[trigger] xs[i].result) && m2[xs[i].result]
                == xs[i],
    decreases xs.len(),
{
    if xs.len() > 0 {
        let e = xs[0];
        let m1 = if m.contains_key(e.result) {
            m
        } else {
            m.insert(e.result, e)
        };
        lemma_merge_covers(m1, xs.drop_first(), m2);
        lemma_merge_extends(m1, xs.drop_first(), m2);
        assert(m1.contains_key(e.result) && m1[e.result] == e);
        assert forall|i: int| 0 <= i < xs.len() implies m2.contains_key(#[trigger] xs[i].result)
            && m2[xs[i].result] == xs[i] by {
            if i > 0 {
                assert(xs.drop_first()[i - 1] == xs[i]);
            }
        }
    }
}

/// Merging elements that all already sit in the map, each under its name
/// with its value, changes nothing and raises no conflict.
pub proof fn lemma_merge_noop(m: Map<Seq<char>, ElementV>, xs: Seq<ElementV>)
    requires
        forall|i: int|
            0 <= i < xs.len() ==> m.contains_key(#[trigger] xs[i].result) && m[xs[i].result]
                == xs[i],
    ensures
        spec_merge(m, xs) == Some(m),
    decreases xs.len(),
{
    if xs.len() > 0 {
        assert(xs[0].result == xs[0].result);
        assert forall|i: int| 0 <= i < xs.drop_first().len() implies m.contains_key(
            #[trigger] xs.drop_first()[i].result,
        ) && m[xs.drop_first()[i].result] == xs.drop_first()[i] by {
            assert(xs.drop_first()[i] == xs[i + 1]);
        }
        lemma_merge_noop(m, xs.drop_first());
    }
}

/// Import merge is a no-op-safe union: merging the same elements a second
/// time changes nothing the second time and raises no conflict.
pub proof fn lemma_merge_idempotent(m: Map<Seq<char>, ElementV>, xs: Seq<ElementV>, m2: Map<
    Seq<char>,
    ElementV,
>)
    requires
        spec_merge(m, xs) == Some(m2),
    ensures
        spec_merge(m2, xs) == Some(m2),
{
    lemma_merge_covers(m, xs, m2);
    lemma_merge_noop(m2, xs);
}

/// Export is a faithful structural inverse of import: reading an exported
/// store back gives element for element what the store holds, and merging
/// it into the store it came from reproduces that store, with no conflict.
pub proof fn lemma_export_import_roundtrip(s: Seq<ElementV>)
    requires
        unique_names(s),
    ensures
        spec_import(spec_export(s)) == s,
        spec_merge(elems_map(s), spec_import(spec_export(s))) == Some(elems_map(s)),
{
    assert(spec_import(spec_export(s)) =~= s);
    assert forall|i: int| 0 <= i < s.len() implies elems_map(s).contains_key(
        #[trigger] s[i].result,
    ) && elems_map(s)[s[i].result] == s[i] by {
        lemma_elems_map_get(s, i);
    }
    lemma_merge_noop(elems_map(s), s);
}

/// Rows with pairwise distinct names are kept exactly as they are.
pub proof fn lemma_dedup_rows_unique(s: Seq<ElementV>)
    requires
        unique_names(s),
    ensures
        dedup_rows(s) == s,
    decreases s.len(),
{
    if s.len() > 0 {
        lemma_dedup_rows_unique(s.drop_last());
        assert(!has_name(s.drop_last(), s.last().result));
        assert(dedup_rows(s.drop_last()).push(s.last()) =~= s);
    }
}

/// Loaded rows deduplicated front to back, the first occurrence of a name
/// winning.
pub open spec fn dedup_rows(s: Seq<ElementV>) -> Seq<ElementV>
    decreases s.len(),
{
    if s.len() == 0 {
        Seq::empty()
    } else {
        let p = dedup_rows(s.drop_last());
        if has_name(p, s.last().result) {
            p
        } else {
            p.push(s.last())
        }
    }
}

} // verus!
