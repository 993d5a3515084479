//! The field-layout registry and the decoded orbit fields.
//!
//! The registry is an injected, read-only table: for a constellation and a
//! requested format revision it yields the closest layout revision at or
//! below the request, and that revision's ordered field descriptors. The
//! decoded fields themselves are kept in an association table keyed by
//! field name.

use vstd::prelude::*;
use vstd::slice::slice_to_vec;
use crate::constellation::Constellation;
use crate::text::bytes_eq;
use crate::text::is_float_token;
use crate::text::norm_token;
use crate::text::replace_d_with_e;
use crate::text::trim;
use crate::text::trimmed;
use crate::version::Version;
use crate::version::version_le;

verus! {

/// One field of a layout: its name and its numeric type token.
/// Only the floating-point type `f64` occurs in the supported layouts.
#[derive(Clone, Debug)]
pub struct FieldDescriptor {
    pub name: Vec<u8>,
    pub kind: Vec<u8>,
}

/// One layout revision of a constellation: the ordered fields its orbit
/// lines carry.
#[derive(Clone, Debug)]
pub struct RevisionLayout {
    pub constellation: Constellation,
    pub version: Version,
    pub fields: Vec<FieldDescriptor>,
}

/// The field-layout registry, injected into the decoder.
#[derive(Clone, Debug)]
pub struct OrbitLayouts {
    pub entries: Vec<RevisionLayout>,
}

/// The closest revision at or below `req` that the registry holds for
/// `c`: the greatest such (major, minor), scanning the whole table.
pub open spec fn closest_rev(entries: Seq<RevisionLayout>, c: Constellation, req: Version) -> Option<
    Version,
>
    decreases entries.len(),
{
    if entries.len() == 0 {
        None
    } else {
        let rest = closest_rev(entries.drop_last(), c, req);
        let e = entries.last();
        if e.constellation == c && version_le(e.version, req) {
            match rest {
                None => Some(e.version),
                Some(v) => if version_le(v, e.version) {
                    Some(e.version)
                } else {
                    Some(v)
                },
            }
        } else {
            rest
        }
    }
}

/// The field list of the first registry entry for `(c, v)`.
pub open spec fn layout_fields(
    entries: Seq<RevisionLayout>,
    c: Constellation,
    v: Version,
) -> Option<Seq<FieldDescriptor>>
    decreases entries.len(),
{
    if entries.len() == 0 {
        None
    } else if entries[0].constellation == c && entries[0].version == v {
        Some(entries[0].fields@)
    } else {
        layout_fields(entries.drop_first(), c, v)
    }
}

/// A revision the scan found is a revision the table holds.
pub proof fn lemma_closest_has_layout(entries: Seq<RevisionLayout>, c: Constellation, req: Version)
    ensures
        closest_rev(entries, c, req) is Some ==> layout_fields(
            entries,
            c,
            closest_rev(entries, c, req).unwrap(),
        ) is Some,
    decreases entries.len(),
{
    if entries.len() > 0 {
        lemma_closest_has_layout(entries.drop_last(), c, req);
        let v = closest_rev(entries, c, req);
        if v is Some {
            lemma_layout_fields_extend(entries, c, v.unwrap());
        }
    }
}

/// Looking in a longer table finds at least what the front held.
proof fn lemma_layout_fields_extend(entries: Seq<RevisionLayout>, c: Constellation, v: Version)
    requires
        entries.len() > 0,
    ensures
        layout_fields(entries.drop_last(), c, v) is Some ==> layout_fields(entries, c, v) is Some,
        entries.last().constellation == c && entries.last().version == v ==> layout_fields(
            entries,
            c,
            v,
        ) is Some,
    decreases entries.len(),
{
    if entries.len() == 1 {
    } else {
        let dl = entries.drop_last();
        assert(dl[0] == entries[0]);
        if !(entries[0].constellation == c && entries[0].version == v) {
            lemma_layout_fields_extend(entries.drop_first(), c, v);
            assert(entries.drop_first().drop_last() =~= dl.drop_first());
            assert(entries.drop_first().last() == entries.last());
        }
    }
}

impl OrbitLayouts {
    /// The closest revision at or below `req` held for `c`, scanning the
    /// whole table; `None` when the table holds none.
    pub fn closest_revision(&self, c: Constellation, req: Version) -> (r: Option<Version>)
        ensures
            r == closest_rev(self.entries@, c, req),
    {
        let mut best: Option<Version> = None;
        let mut i: usize = 0;
        while i < self.entries.len()
            invariant
                0 <= i <= self.entries@.len(),
                best == closest_rev(self.entries@.take(i as int), c, req),
            decreases self.entries@.len() - i,
        {
            let e = &self.entries[i];
            proof {
                assert(self.entries@.take(i + 1).drop_last() =~= self.entries@.take(i as int));
                assert(self.entries@.take(i + 1).last() == self.entries@[i as int]);
            }
            if e.constellation == c && e.version.le(&req) {
                best = match best {
                    None => Some(e.version),
                    Some(v) => if v.le(&e.version) {
                        Some(e.version)
                    } else {
                        Some(v)
                    },
                };
            }
            i = i + 1;
        }
        proof {
            assert(self.entries@.take(self.entries@.len() as int) =~= self.entries@);
        }
        best
    }

    /// The field list of the first entry for `(c, v)`.
    pub fn layout(&self, c: Constellation, v: Version) -> (r: Option<&Vec<FieldDescriptor>>)
        ensures
            r is Some <==> layout_fields(self.entries@, c, v) is Some,
            r is Some ==> r.unwrap()@ == layout_fields(self.entries@, c, v).unwrap(),
    {
        let mut i: usize = 0;
        proof {
            assert(self.entries@.skip(0) =~= self.entries@);
        }
        while i < self.entries.len()
            invariant
                0 <= i <= self.entries@.len(),
                layout_fields(self.entries@, c, v) == layout_fields(
                    self.entries@.skip(i as int),
                    c,
                    v,
                ),
            decreases self.entries@.len() - i,
        {
            let e = &self.entries[i];
            proof {
                assert(self.entries@.skip(i as int)[0] == self.entries@[i as int]);
                assert(self.entries@.skip(i as int).drop_first() =~= self.entries@.skip(i + 1));
            }
            if e.constellation == c && e.version.major == v.major && e.version.minor == v.minor {
                return Some(&e.fields);
            }
            i = i + 1;
        }
        None
    }
}

/// The byte string `f64`, the floating-point type token.
pub open spec fn float_kind() -> Seq<u8> {
    seq![102u8, 54u8, 52u8]
}

/// What a declared field kind and a raw column token decode to: the
/// normalized token, when the kind is the floating-point one and the
/// normalized token reads as a number and fits a 19-column field.
pub open spec fn orbit_item_of(kind: Seq<u8>, content: Seq<u8>) -> Option<Seq<u8>> {
    let t = norm_token(content);
    if kind == float_kind() && is_float_token(t) && t.len() <= 19 {
        Some(t)
    } else {
        None
    }
}

/// A decoded orbit field: the exact token written for it, trimmed, with
/// the exponent marker normalized to `E`.
#[derive(Clone, PartialEq, Eq, Debug)]
pub struct OrbitItem {
    text: Vec<u8>,
}

impl View for OrbitItem {
    type V = Seq<u8>;

    closed spec fn view(&self) -> Seq<u8> {
        self.text@
    }
}

impl OrbitItem {
    /// A stored token is well formed: it reads as a number and fits its
    /// 19-column field.
    pub open spec fn wf(&self) -> bool {
        is_float_token(self@) && self@.len() <= 19
    }

    /// Decodes one raw column token of the declared `kind`, written for
    /// `constellation`. The constellation is what representation rules
    /// would depend on for non-float kinds; none occur in the supported
    /// layouts, so it is not consulted.
    pub fn new(kind: &[u8], content: &[u8], constellation: Constellation) -> (r: Option<OrbitItem>)
        ensures
            r is Some <==> orbit_item_of(kind@, content@) is Some,
            r is Some ==> r.unwrap()@ == orbit_item_of(kind@, content@).unwrap() && r.unwrap().wf(),
    {
        let _ = constellation;
        if !(kind.len() == 3 && kind[0] == 102 && kind[1] == 54 && kind[2] == 52) {
            proof {
                assert(kind@ != float_kind());
            }
            return None;
        }
        proof {
            assert(kind@ =~= float_kind());
        }
        let t = replace_d_with_e(trim(content));
        if t.len() <= 19 && crate::text::is_float_text(t.as_slice()) {
            Some(OrbitItem { text: t })
        } else {
            None
        }
    }

    /// The stored token.
    pub fn as_text(&self) -> (r: &Vec<u8>)
        ensures
            r@ == self@,
    {
        &self.text
    }
}

/// The decoded fields of one message: field name to stored token, keys
/// unique.
#[derive(Clone, PartialEq, Eq, Debug)]
pub struct OrbitTable {
    entries: Vec<(Vec<u8>, OrbitItem)>,
}

/// The mapping an entry list denotes, later entries over earlier ones.
spec fn table_map(entries: Seq<(Vec<u8>, OrbitItem)>) -> Map<Seq<u8>, Seq<u8>>
    decreases entries.len(),
{
    if entries.len() == 0 {
        Map::empty()
    } else {
        table_map(entries.drop_last()).insert(entries.last().0@, entries.last().1@)
    }
}

impl View for OrbitTable {
    type V = Map<Seq<u8>, Seq<u8>>;

    closed spec fn view(&self) -> Map<Seq<u8>, Seq<u8>> {
        table_map(self.entries@)
    }
}

/// A name is in the mapping exactly when some entry carries it.
proof fn lemma_table_map_dom(entries: Seq<(Vec<u8>, OrbitItem)>, k: Seq<u8>)
    ensures
        table_map(entries).contains_key(k) <==> exists|i: int|
            0 <= i < entries.len() && entries[i].0@ == k,
    decreases entries.len(),
{
    if entries.len() > 0 {
        lemma_table_map_dom(entries.drop_last(), k);
        if entries.last().0@ == k {
            assert(entries[entries.len() - 1].0@ == k);
        } else if table_map(entries).contains_key(k) {
            let i = choose|i: int| 0 <= i < entries.drop_last().len() && entries.drop_last()[i].0@
                == k;
            assert(entries[i].0@ == k);
        } else {
            if exists|i: int| 0 <= i < entries.len() && entries[i].0@ == k {
                let i = choose|i: int| 0 <= i < entries.len() && entries[i].0@ == k;
                assert(entries.drop_last()[i].0@ == k);
            }
        }
    }
}

impl OrbitTable {
    /// Keys are unique and every stored token is well formed.
    pub closed spec fn wf(&self) -> bool {
        &&& forall|i: int, j: int|
            0 <= i < j < self.entries@.len() ==> self.entries@[i].0@ != self.entries@[j].0@
        &&& forall|i: int| 0 <= i < self.entries@.len() ==> (#[trigger] self.entries@[i].1).wf()
    }

    /// An empty table.
    pub fn new() -> (r: OrbitTable)
        ensures
            r@ == Map::<Seq<u8>, Seq<u8>>::empty(),
            r.wf(),
    {
        OrbitTable { entries: Vec::new() }
    }

    /// Stores `item` under `key`, replacing what the key held before.
    pub fn insert(&mut self, key: &[u8], item: OrbitItem)
        requires
            old(self).wf(),
            item.wf(),
        ensures
            final (self).wf(),
            final (self)@ == old(self)@.insert(key@, item@),
    {
        let mut i: usize = 0;
        let n: usize = self.entries.len();
        while i < n
            invariant
                *self == *old(self),
                self.wf(),
                item.wf(),
                0 <= i <= n == self.entries@.len(),
                forall|j: int| 0 <= j < i ==> self.entries@[j].0@ != key@,
            decreases n - i,
        {
            if bytes_eq(self.entries[i].0.as_slice(), key) {
                proof {
                    lemma_table_map_set(self.entries@, i as int, item);
                }
                let ghost before = self.entries@;
                let owned_key = slice_to_vec(key);
                self.entries.set(i, (owned_key, item));
                proof {
                    assert(self.entries@ =~= before.update(i as int, (owned_key, item)));
                    assert forall|a: int, b: int|
                        0 <= a < b < self.entries@.len() implies self.entries@[a].0@
                        != self.entries@[b].0@ by {
                        assert(before[a].0@ != before[b].0@);
                    }
                    assert forall|a: int|
                        0 <= a < self.entries@.len() implies (
                    #[trigger] self.entries@[a].1).wf() by {
                        if a != i {
                            assert(self.entries@[a] == before[a]);
                        }
                    }
                }
                return ;
            }
            i = i + 1;
        }
        let owned_key = slice_to_vec(key);
        let ghost before = self.entries@;
        self.entries.push((owned_key, item));
        proof {
            assert(self.entries@.drop_last() =~= before);
            assert(self.entries@.last() == (owned_key, item));
            assert forall|a: int, b: int|
                0 <= a < b < self.entries@.len() implies self.entries@[a].0@
                != self.entries@[b].0@ by {
                assert(self.entries@[a] == before[a]);
                if b < self.entries@.len() - 1 {
                    assert(self.entries@[b] == before[b]);
                }
            }
            assert forall|a: int|
                0 <= a < self.entries@.len() implies (#[trigger] self.entries@[a].1).wf() by {
                if a < self.entries@.len() - 1 {
                    assert(self.entries@[a] == before[a]);
                }
            }
        }
    }

    /// The stored token under `key`, when the key is present.
    pub fn get(&self, key: &[u8]) -> (r: Option<&OrbitItem>)
        ensures
            r is Some <==> self@.contains_key(key@),
            self.wf() && r is Some ==> r.unwrap()@ == self@[key@] && r.unwrap().wf(),
    {
        let mut i: usize = 0;
        while i < self.entries.len()
            invariant
                0 <= i <= self.entries@.len(),
                forall|j: int| 0 <= j < i ==> self.entries@[j].0@ != key@,
            decreases self.entries@.len() - i,
        {
            if bytes_eq(self.entries[i].0.as_slice(), key) {
                proof {
                    lemma_table_map_dom(self.entries@, key@);
                    assert(self.entries@[i as int].0@ == key@);
                    if self.wf() {
                        lemma_table_map_at(self.entries@, i as int);
                    }
                }
                return Some(&self.entries[i].1);
            }
            i = i + 1;
        }
        proof {
            lemma_table_map_dom(self.entries@, key@);
        }
        None
    }
}

/// Replacing the value at `i` updates the mapping at that key, when no
/// later entry shadows it.
proof fn lemma_table_map_set(entries: Seq<(Vec<u8>, OrbitItem)>, i: int, item: OrbitItem)
    requires
        0 <= i < entries.len(),
        forall|j: int, k: int| 0 <= j < k < entries.len() ==> entries[j].0@ != entries[k].0@,
    ensures
        forall|nk: Vec<u8>|
            nk@ == entries[i].0@ ==> table_map(entries.update(i, (nk, item))) == table_map(
                entries,
            ).insert(entries[i].0@, item@),
    decreases entries.len(),
{
    assert forall|nk: Vec<u8>|
        nk@ == entries[i].0@ implies table_map(entries.update(i, (nk, item))) == table_map(
        entries,
    ).insert(entries[i].0@, item@) by {
        let up = entries.update(i, (nk, item));
        if i == entries.len() - 1 {
            assert(up.drop_last() =~= entries.drop_last());
            assert(up.last() == (nk, item));
            assert(table_map(up) == table_map(entries.drop_last()).insert(entries[i].0@, item@));
            assert(table_map(entries).insert(entries[i].0@, item@) == table_map(
                entries.drop_last(),
            ).insert(entries.last().0@, entries.last().1@).insert(entries[i].0@, item@));
            assert(table_map(entries.drop_last()).insert(entries.last().0@, entries.last().1@)
                .insert(entries[i].0@, item@) =~= table_map(entries.drop_last()).insert(
                entries[i].0@,
                item@,
            ));
        } else {
            assert forall|j: int, k: int|
                0 <= j < k < entries.drop_last().len() implies entries.drop_last()[j].0@
                != entries.drop_last()[k].0@ by {
                assert(entries.drop_last()[j] == entries[j]);
                assert(entries.drop_last()[k] == entries[k]);
            }
            lemma_table_map_set(entries.drop_last(), i, item);
            assert(up.drop_last() =~= entries.drop_last().update(i, (nk, item)));
            assert(entries.drop_last()[i] == entries[i]);
            assert(up.last() == entries.last());
            assert(table_map(up) == table_map(entries.drop_last().update(i, (nk, item))).insert(
                entries.last().0@,
                entries.last().1@,
            ));
            assert(table_map(up) == table_map(entries.drop_last()).insert(entries[i].0@, item@)
                .insert(entries.last().0@, entries.last().1@));
            assert(entries[i].0@ != entries.last().0@);
            assert(table_map(entries.drop_last()).insert(entries[i].0@, item@).insert(
                entries.last().0@,
                entries.last().1@,
            ) =~= table_map(entries.drop_last()).insert(entries.last().0@, entries.last().1@)
                .insert(entries[i].0@, item@));
        }
    }
}

/// The mapping holds each entry, when no later entry shadows it.
proof fn lemma_table_map_at(entries: Seq<(Vec<u8>, OrbitItem)>, i: int)
    requires
        0 <= i < entries.len(),
        forall|j: int, k: int| 0 <= j < k < entries.len() ==> entries[j].0@ != entries[k].0@,
    ensures
        table_map(entries).contains_key(entries[i].0@),
        table_map(entries)[entries[i].0@] == entries[i].1@,
    decreases entries.len(),
{
    if i == entries.len() - 1 {
    } else {
        lemma_table_map_at(entries.drop_last(), i);
        assert(entries.drop_last()[i] == entries[i]);
        assert(entries[i].0@ != entries.last().0@);
    }
}

} // verus!
