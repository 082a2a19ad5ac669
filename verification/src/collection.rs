use vstd::prelude::*;
use crate::ids::NotetypeId;
use crate::ids::TimestampSecs;
use crate::ids::Usn;
use crate::notetype::AnkiError;
use crate::notetype::CardRequirement;
use crate::notetype::CardTemplate;
use crate::notetype::CardTemplateConfig;
use crate::notetype::NoteField;
use crate::notetype::Notetype;
use crate::notetype::NotetypeV;
use crate::notetype::name_extended;
use crate::notetype::plussed;
use crate::notetype::prep_err_ok;
use crate::notetype::prep_fails;
use crate::notetype::prepared_ok;
use crate::notetype::with_default_deck;
use crate::notetype::ConfigV;
use crate::notetype::FieldV;
use crate::notetype::NotetypeKind;
use crate::notetype::TemplateV;

verus! {

// ---------------------------------------------------------------------------
// Deep copies. A snapshot handed out of the store must not share mutable
// state with it, so the value is rebuilt field by field, provably equal.
// ---------------------------------------------------------------------------

fn copy_u32s(v: &Vec<u32>) -> (r: Vec<u32>)
    ensures
        r@ == v@,
{
    let mut out: Vec<u32> = Vec::new();
    let mut i: usize = 0;
    while i < v.len()
        invariant
            i <= v.len(),
            out@ =~= v@.subrange(0, i as int),
        decreases v.len() - i,
    {
        out.push(v[i]);
        i = i + 1;
        assert(out@ =~= v@.subrange(0, i as int));
    }
    assert(v@.subrange(0, v@.len() as int) =~= v@);
    out
}

impl Notetype {
    /// An owned snapshot of this schema, equal in every modeled respect.
    pub fn snapshot(&self) -> (r: Notetype)
        ensures
            r@ == self@,
    {
        let mut fields: Vec<NoteField> = Vec::new();
        let mut i: usize = 0;
        while i < self.fields.len()
            invariant
                i <= self.fields.len(),
                fields@.len() == i,
                forall|j: int| 0 <= j < i ==> (#[trigger] fields@[j])@ == self@.fields[j],
            decreases self.fields.len() - i,
        {
            let f = &self.fields[i];
            fields.push(NoteField { ord: f.ord, name: f.name.clone() });
            i = i + 1;
        }
        let mut templates: Vec<CardTemplate> = Vec::new();
        let mut k: usize = 0;
        while k < self.templates.len()
            invariant
                k <= self.templates.len(),
                templates@.len() == k,
                forall|j: int| 0 <= j < k ==> (#[trigger] templates@[j])@ == self@.templates[j],
            decreases self.templates.len() - k,
        {
            let t = &self.templates[k];
            templates.push(
                CardTemplate {
                    ord: t.ord,
                    name: t.name.clone(),
                    config: CardTemplateConfig {
                        q_format: t.config.q_format.clone(),
                        a_format: t.config.a_format.clone(),
                    },
                },
            );
            k = k + 1;
        }
        let mut reqs: Vec<CardRequirement> = Vec::new();
        let mut q: usize = 0;
        while q < self.config.reqs.len()
            invariant
                q <= self.config.reqs.len(),
                reqs@.len() == q,
                forall|j: int| 0 <= j < q ==> (#[trigger] reqs@[j])@ == self@.config.reqs[j],
            decreases self.config.reqs.len() - q,
        {
            let c = &self.config.reqs[q];
            reqs.push(
                CardRequirement {
                    card_ord: c.card_ord,
                    kind: c.kind,
                    field_ords: copy_u32s(&c.field_ords),
                },
            );
            q = q + 1;
        }
        let r = Notetype {
            id: self.id,
            name: self.name.clone(),
            mtime_secs: self.mtime_secs,
            usn: self.usn,
            fields,
            templates,
            config: crate::notetype::NotetypeConfig {
                kind: self.config.kind,
                sort_field_idx: self.config.sort_field_idx,
                reqs,
                target_deck_id: self.config.target_deck_id,
            },
        };
        proof {
            assert(r@.fields =~= self@.fields);
            assert(r@.templates =~= self@.templates);
            assert(r@.config.reqs =~= self@.config.reqs);
            assert(r@ =~= self@);
        }
        r
    }
}

// ---------------------------------------------------------------------------
// Storage model: the persisted schemas, identities unique and positive.
// ---------------------------------------------------------------------------

/// The persisted schemas, in insertion order.
pub struct Storage {
    pub notetypes: Vec<Notetype>,
}

/// Identities are unique and positive, and every stored schema stays within
/// the sizes the validation pipeline accepts.
pub open spec fn stored_ok(s: Seq<Notetype>) -> bool {
    &&& forall|a: int, b: int|
        0 <= a < b < s.len() ==> (#[trigger] s[a]@.id) != (#[trigger] s[b]@.id)
    &&& forall|a: int, b: int|
        0 <= a < b < s.len() ==> (#[trigger] s[a]@.name) != (#[trigger] s[b]@.name)
    &&& forall|i: int| 0 <= i < s.len() ==> 0 < (#[trigger] s[i]@.id).0
    &&& forall|i: int|
        0 <= i < s.len() ==> (#[trigger] s[i])@.fields.len() <= 0xFFFF && s[i]@.templates.len()
            <= 0xFFFFFFFF
}

/// Some stored schema carries this identity.
pub open spec fn storage_has(s: Seq<Notetype>, id: NotetypeId) -> bool {
    exists|i: int| 0 <= i < s.len() && (#[trigger] s[i]@.id) == id
}

/// The stored schemas left after removing one identity, in order.
pub open spec fn storage_without(s: Seq<Notetype>, id: NotetypeId) -> Seq<Notetype>
    decreases s.len()
{
    if s.len() == 0 {
        s
    } else if s[0]@.id == id {
        storage_without(s.drop_first(), id)
    } else {
        seq![s[0]] + storage_without(s.drop_first(), id)
    }
}

/// The stored schema of this identity, when there is one.
pub open spec fn storage_find(s: Seq<Notetype>, id: NotetypeId) -> Option<NotetypeV> {
    if storage_has(s, id) {
        Some(s[choose|i: int| 0 <= i < s.len() && (#[trigger] s[i]@.id) == id]@)
    } else {
        None
    }
}

/// The schema with its modification time and sequence number replaced.
pub open spec fn stamped(o: NotetypeV, t: TimestampSecs, u: Usn) -> NotetypeV {
    NotetypeV { mtime_secs: t, usn: u, ..o }
}

proof fn lemma_storage_without_no_id(s: Seq<Notetype>, id: NotetypeId)
    ensures
        forall|j: int|
            0 <= j < storage_without(s, id).len() ==> (#[trigger] storage_without(s, id)[
                j
            ])@.id != id,
    decreases s.len(),
{
    if s.len() > 0 {
        lemma_storage_without_no_id(s.drop_first(), id);
        if s[0]@.id != id {
            assert(forall|j: int|
                1 <= j < storage_without(s, id).len() ==> #[trigger] storage_without(s, id)[j]
                    == storage_without(s.drop_first(), id)[j - 1]);
        }
    }
}

impl Storage {
    /// The identity of the first schema stored under exactly this name.
    pub fn get_notetype_id(&self, name: &str) -> (r: Option<NotetypeId>)
        ensures
            match r {
                Some(id) => exists|i: int|
                    0 <= i < self.notetypes@.len() && (#[trigger] self.notetypes@[i])@.name
                        == name@ && self.notetypes@[i]@.id == id,
                None => forall|i: int|
                    0 <= i < self.notetypes@.len() ==> (#[trigger] self.notetypes@[i])@.name
                        != name@,
            },
    {
        let mut i: usize = 0;
        while i < self.notetypes.len()
            invariant
                i <= self.notetypes.len(),
                forall|j: int|
                    0 <= j < i ==> (#[trigger] self.notetypes@[j])@.name != name@,
            decreases self.notetypes.len() - i,
        {
            if self.notetypes[i].name.as_str().eq(name) {
                return Some(self.notetypes[i].id);
            }
            i = i + 1;
        }
        None
    }

    /// The position of the schema stored under this identity.
    fn find_index(&self, id: NotetypeId) -> (r: Option<usize>)
        ensures
            match r {
                Some(i) => i < self.notetypes@.len() && self.notetypes@[i as int]@.id == id,
                None => !storage_has(self.notetypes@, id),
            },
    {
        let mut i: usize = 0;
        while i < self.notetypes.len()
            invariant
                i <= self.notetypes.len(),
                forall|j: int| 0 <= j < i ==> (#[trigger] self.notetypes@[j])@.id != id,
            decreases self.notetypes.len() - i,
        {
            if self.notetypes[i].id == id {
                return Some(i);
            }
            i = i + 1;
        }
        None
    }
}

proof fn lemma_storage_without_absent(s: Seq<Notetype>, id: NotetypeId)
    requires
        forall|i: int| 0 <= i < s.len() ==> (#[trigger] s[i]@.id) != id,
    ensures
        storage_without(s, id) == s,
    decreases s.len(),
{
    if s.len() > 0 {
        assert(forall|i: int|
            0 <= i < s.drop_first().len() ==> (#[trigger] s.drop_first()[i]@.id) != id);
        lemma_storage_without_absent(s.drop_first(), id);
        assert(seq![s[0]] + s.drop_first() =~= s);
    }
}

proof fn lemma_storage_without_at(s: Seq<Notetype>, id: NotetypeId, p: int)
    requires
        0 <= p < s.len(),
        s[p]@.id == id,
        forall|i: int| 0 <= i < s.len() && i != p ==> (#[trigger] s[i]@.id) != id,
    ensures
        storage_without(s, id) == s.subrange(0, p) + s.subrange(p + 1, s.len() as int),
    decreases s.len(),
{
    if p == 0 {
        assert(forall|i: int|
            0 <= i < s.drop_first().len() ==> (#[trigger] s.drop_first()[i]@.id) != id);
        lemma_storage_without_absent(s.drop_first(), id);
        assert(s.drop_first() =~= s.subrange(0, 0) + s.subrange(1, s.len() as int));
    } else {
        assert(forall|i: int|
            0 <= i < s.drop_first().len() && i != p - 1 ==> (#[trigger] s.drop_first()[
                i
            ]@.id) != id);
        lemma_storage_without_at(s.drop_first(), id, p - 1);
        assert(s.drop_first().subrange(0, p - 1) =~= s.subrange(1, p));
        assert(s.drop_first().subrange(p, s.drop_first().len() as int) =~= s.subrange(
            p + 1,
            s.len() as int,
        ));
        assert(seq![s[0]] + (s.subrange(1, p) + s.subrange(p + 1, s.len() as int)) =~= s.subrange(
            0,
            p,
        ) + s.subrange(p + 1, s.len() as int));
    }
}

// ---------------------------------------------------------------------------
// The collection: storage plus a read-through cache of snapshots.
// ---------------------------------------------------------------------------

/// Cached snapshots keyed by identity.
pub struct CollectionState {
    pub notetype_cache: Vec<(NotetypeId, Notetype)>,
}

/// Every cached snapshot carries its key as identity and agrees with a stored
/// schema of that identity.
pub open spec fn cache_ok(c: Seq<(NotetypeId, Notetype)>, s: Seq<Notetype>) -> bool {
    forall|j: int|
        0 <= j < c.len() ==> (#[trigger] c[j]).1@.id == c[j].0 && (exists|i: int|
            0 <= i < s.len() && (#[trigger] s[i])@ == c[j].1@)
}

/// The schema store coordinator: storage, cache, the update counter, and the
/// bookkeeping the removal path maintains.
pub struct Collection {
    pub storage: Storage,
    pub state: CollectionState,
    pub usn_counter: i32,
    pub current_notetype_id: NotetypeId,
    pub schema_modified: bool,
}

impl Collection {
    /// The coordinator's invariant: stored identities unique and positive,
    /// and every cached snapshot coherent with storage.
    pub open spec fn wf(self) -> bool {
        &&& stored_ok(self.storage.notetypes@)
        &&& cache_ok(self.state.notetype_cache@, self.storage.notetypes@)
    }

    /// An empty collection.
    pub fn new() -> (r: Collection)
        ensures
            r.wf(),
            r.storage.notetypes@.len() == 0,
            r.state.notetype_cache@.len() == 0,
    {
        Collection {
            storage: Storage { notetypes: Vec::new() },
            state: CollectionState { notetype_cache: Vec::new() },
            usn_counter: 0,
            current_notetype_id: NotetypeId(0),
            schema_modified: false,
        }
    }

    /// Drops every cached snapshot of this identity; the next read fetches
    /// from storage again. `target` is the stored state the surviving
    /// entries are coherent with.
    fn evict_cached(&mut self, ntid: NotetypeId, target: Ghost<Seq<Notetype>>)
        requires
            forall|j: int|
                0 <= j < old(self).state.notetype_cache@.len() ==> ((#[trigger] old(self).state.notetype_cache@[j]).0 != ntid ==> old(self).state.notetype_cache@[
                    j
                ].1@.id == old(self).state.notetype_cache@[j].0 && (exists|i: int|
                    0 <= i < target@.len() && (#[trigger] target@[i])@ == old(self).state.notetype_cache@[j].1@)),
        ensures
            final(self).storage == old(self).storage,
            final(self).usn_counter == old(self).usn_counter,
            final(self).current_notetype_id == old(self).current_notetype_id,
            final(self).schema_modified == old(self).schema_modified,
            cache_ok(final(self).state.notetype_cache@, target@),
            forall|j: int|
                0 <= j < final(self).state.notetype_cache@.len()
                    ==> (#[trigger] final(self).state.notetype_cache@[j]).0 != ntid,
    {
        let ghost before = self.state.notetype_cache@;
        let mut kept: Vec<(NotetypeId, Notetype)> = Vec::new();
        let mut i: usize = 0;
        while i < self.state.notetype_cache.len()
            invariant
                i <= self.state.notetype_cache.len(),
                before == self.state.notetype_cache@,
                forall|j: int|
                    0 <= j < before.len() ==> ((#[trigger] before[j]).0 != ntid ==> before[
                        j
                    ].1@.id == before[j].0 && (exists|q: int|
                        0 <= q < target@.len() && (#[trigger] target@[q])@ == before[j].1@)),
                forall|j: int| 0 <= j < kept@.len() ==> (#[trigger] kept@[j]).0 != ntid,
                cache_ok(kept@, target@),
            decreases self.state.notetype_cache.len() - i,
        {
            let entry = &self.state.notetype_cache[i];
            if !(entry.0 == ntid) {
                let copy = (entry.0, entry.1.snapshot());
                proof {
                    assert(before[i as int].1@ == copy.1@);
                    assert(copy.1@.id == copy.0);
                    let w = choose|q: int|
                        0 <= q < target@.len() && (#[trigger] target@[q])@ == before[i as int].1@;
                    assert(target@[w]@ == copy.1@);
                }
                kept.push(copy);
                proof {
                    let j = kept@.len() - 1;
                    let w = choose|q: int|
                        0 <= q < target@.len() && (#[trigger] target@[q])@ == before[i as int].1@;
                    assert((kept@[j]).1@.id == kept@[j].0 && 0 <= w < target@.len() && target@[
                        w
                    ]@ == kept@[j].1@);
                }
            }
            i = i + 1;
        }
        self.state.notetype_cache = kept;
    }
}


/// Some schema of another identity is stored under exactly this name.
pub open spec fn other_holds_name(s: Seq<Notetype>, id: NotetypeId, cand: Seq<char>) -> bool {
    exists|i: int|
        0 <= i < s.len() && (#[trigger] s[i])@.name == cand && s[i]@.id != id
}

/// Some stored identity has reached the end of the identity space.
pub open spec fn id_space_full(s: Seq<Notetype>) -> bool {
    exists|i: int| 0 <= i < s.len() && (#[trigger] s[i]@.id).0 == 0x7fff_ffff_ffff_ffff
}

/// A stored schema under this identity is newer than the caller's copy.
pub open spec fn stale_against(s: Seq<Notetype>, n: NotetypeV) -> bool {
    exists|i: int|
        0 <= i < s.len() && (#[trigger] s[i]@.id) == n.id && s[i]@.mtime_secs.0 > n.mtime_secs.0
}

/// How many stored schemas have a name of at least `len_bound` characters.
spec fn count_name_ge(s: Seq<Notetype>, len_bound: int) -> nat
    decreases s.len()
{
    if s.len() == 0 {
        0
    } else {
        count_name_ge(s.drop_last(), len_bound) + if s.last()@.name.len() >= len_bound {
            1nat
        } else {
            0nat
        }
    }
}

proof fn lemma_count_name_ge_mono(s: Seq<Notetype>, len_bound: int)
    ensures
        count_name_ge(s, len_bound + 1) <= count_name_ge(s, len_bound),
    decreases s.len(),
{
    if s.len() > 0 {
        lemma_count_name_ge_mono(s.drop_last(), len_bound);
    }
}

proof fn lemma_count_name_ge_dec(s: Seq<Notetype>, len_bound: int)
    requires
        exists|q: int| 0 <= q < s.len() && (#[trigger] s[q])@.name.len() == len_bound,
    ensures
        count_name_ge(s, len_bound + 1) < count_name_ge(s, len_bound),
    decreases s.len(),
{
    let q = choose|q: int| 0 <= q < s.len() && (#[trigger] s[q])@.name.len() == len_bound;
    if q == s.len() - 1 {
        lemma_count_name_ge_mono(s.drop_last(), len_bound);
    } else {
        assert(s.drop_last()[q] == s[q]);
        lemma_count_name_ge_dec(s.drop_last(), len_bound);
    }
}

/// The built-in schema, as a value: a front and a back field, and one card
/// template asking the front and answering with both sides.
pub open spec fn stock_notetype_view() -> NotetypeV {
    NotetypeV {
        id: NotetypeId(0),
        name: "Basic"@,
        mtime_secs: TimestampSecs(0),
        usn: Usn(0),
        fields: seq![
            FieldV { ord: None, name: "Front"@ },
            FieldV { ord: None, name: "Back"@ },
        ],
        templates: seq![
            TemplateV {
                ord: None,
                name: "Card 1"@,
                q_format: "{{Front}}"@,
                a_format: "{{FrontSide}}<hr id=answer>{{Back}}"@,
            },
        ],
        config: ConfigV {
            kind: NotetypeKind::Standard,
            sort_field_idx: 0,
            reqs: Seq::empty(),
            target_deck_id: 0,
        },
    }
}

/// The built-in schema used to bootstrap an emptied collection: two fields
/// and a single card template.
pub fn stock_notetype() -> (r: Notetype)
    ensures
        r@ == stock_notetype_view(),
        r@.id == NotetypeId(0),
        r@.fields.len() == 2,
        r@.templates.len() == 1,
{
    let mut nt = Notetype::default();
    nt.name = "Basic".to_owned();
    nt.add_field("Front");
    nt.add_field("Back");
    nt.add_template("Card 1", "{{Front}}", "{{FrontSide}}<hr id=answer>{{Back}}");
    assert(nt@ =~= stock_notetype_view());
    nt
}

impl Collection {
    /// Appends a collision marker to the schema's name until no other stored
    /// schema holds that exact name, re-stamping it on every change.
    pub fn ensure_notetype_name_unique(&self, notetype: &mut Notetype, usn: Usn) -> (r: Result<
        (),
        AnkiError,
    >)
        requires
            stored_ok(self.storage.notetypes@),
        ensures
            r is Ok,
            name_extended(old(notetype)@.name, final(notetype)@.name),
            final(notetype)@.id == old(notetype)@.id,
            final(notetype)@.fields == old(notetype)@.fields,
            final(notetype)@.templates == old(notetype)@.templates,
            final(notetype)@.config == old(notetype)@.config,
            final(notetype)@.name == old(notetype)@.name ==> final(notetype)@.usn == old(notetype)@.usn && final(notetype)@.mtime_secs == old(notetype)@.mtime_secs,
            final(notetype)@.name != old(notetype)@.name ==> final(notetype)@.usn == usn,
            forall|i: int|
                0 <= i < self.storage.notetypes@.len() ==> ((#[trigger] self.storage.notetypes@[
                    i
                ])@.id != final(notetype)@.id ==> self.storage.notetypes@[i]@.name != final(notetype)@.name),
            forall|k: int|
                #![trigger plussed(old(notetype)@.name, k)]
                0 <= k < final(notetype)@.name.len() - old(notetype)@.name.len()
                    ==> other_holds_name(
                    self.storage.notetypes@,
                    old(notetype)@.id,
                    plussed(old(notetype)@.name, k),
                ),
    {
        let ghost base = notetype@.name;
        proof {
            assert(base.subrange(0, base.len() as int) =~= base);
        }
        let mut done = false;
        while !done
            invariant
                stored_ok(self.storage.notetypes@),
                name_extended(old(notetype)@.name, notetype@.name),
                notetype@.id == old(notetype)@.id,
                notetype@.fields == old(notetype)@.fields,
                notetype@.templates == old(notetype)@.templates,
                notetype@.config == old(notetype)@.config,
                notetype@.name == old(notetype)@.name ==> notetype@.usn == old(notetype)@.usn
                    && notetype@.mtime_secs == old(notetype)@.mtime_secs,
                notetype@.name != old(notetype)@.name ==> notetype@.usn == usn,
                done ==> (forall|i: int|
                    0 <= i < self.storage.notetypes@.len() ==> ((#[trigger] self.storage.notetypes@[
                        i
                    ])@.id != notetype@.id ==> self.storage.notetypes@[i]@.name != notetype@.name)),
                forall|k: int|
                    #![trigger plussed(old(notetype)@.name, k)]
                    0 <= k < notetype@.name.len() - old(notetype)@.name.len()
                        ==> other_holds_name(
                        self.storage.notetypes@,
                        old(notetype)@.id,
                        plussed(old(notetype)@.name, k),
                    ),
            decreases count_name_ge(self.storage.notetypes@, notetype@.name.len() as int), (
            if done {
                0int
            } else {
                1int
            }),
        {
            let ghost name0 = notetype@.name;
            match self.storage.get_notetype_id(notetype.name.as_str()) {
                Some(id) => {
                    if id == notetype.id {
                        proof {
                            let w = choose|i: int|
                                0 <= i < self.storage.notetypes@.len() && (
                                #[trigger] self.storage.notetypes@[i])@.name == name0
                                    && self.storage.notetypes@[i]@.id == id;
                            assert forall|i: int|
                                0 <= i < self.storage.notetypes@.len() && (
                                #[trigger] self.storage.notetypes@[i])@.id != notetype@.id implies
                                self.storage.notetypes@[i]@.name != notetype@.name by {
                                if self.storage.notetypes@[i]@.name == notetype@.name {
                                    assert(i != w);
                                }
                            }
                        }
                        done = true;
                    } else {
                        proof {
                            let w = choose|i: int|
                                0 <= i < self.storage.notetypes@.len() && (
                                #[trigger] self.storage.notetypes@[i])@.name == name0
                                    && self.storage.notetypes@[i]@.id == id;
                            lemma_count_name_ge_dec(
                                self.storage.notetypes@,
                                name0.len() as int,
                            );
                            let bb = old(notetype)@.name;
                            let oldd = name0.len() - bb.len();
                            assert(name0 =~= plussed(bb, oldd));
                            assert(self.storage.notetypes@[w]@.id != notetype@.id);
                            assert(other_holds_name(
                                self.storage.notetypes@,
                                old(notetype)@.id,
                                name0,
                            ));
                        }
                        notetype.name.push('+');
                        notetype.set_modified(usn);
                        proof {
                            assert(notetype@.name =~= name0.push('+'));
                            assert(notetype@.name.subrange(
                                0,
                                old(notetype)@.name.len() as int,
                            ) =~= name0.subrange(0, old(notetype)@.name.len() as int));
                            assert(notetype@.name != old(notetype)@.name) by {
                                assert(notetype@.name.len() > name0.len()
                                    >= old(notetype)@.name.len());
                            }
                            let bb = old(notetype)@.name;
                            let oldd = name0.len() - bb.len();
                            assert forall|k: int|
                                #![trigger plussed(bb, k)]
                                0 <= k < notetype@.name.len() - bb.len() implies other_holds_name(
                                self.storage.notetypes@,
                                old(notetype)@.id,
                                plussed(bb, k),
                            ) by {
                                if k < oldd {
                                    assert(other_holds_name(
                                        self.storage.notetypes@,
                                        old(notetype)@.id,
                                        plussed(bb, k),
                                    ));
                                } else {
                                    assert(k == oldd);
                                    assert(plussed(bb, k) == name0);
                                }
                            }
                        }
                    }
                },
                None => {
                    done = true;
                },
            }
        }
        Ok(())
    }

    /// Adds a new schema: validates it, allocates a fresh identity when none
    /// is set, makes its name unique against the store, and persists it.
    pub fn add_notetype(&mut self, nt: &mut Notetype) -> (r: Result<(), AnkiError>)
        requires
            old(self).wf(),
            old(nt)@.fields.len() <= 0xFFFF,
            old(nt)@.templates.len() <= 0xFFFFFFFF,
        ensures
            final(self).wf(),
            final(self).state.notetype_cache@ == old(self).state.notetype_cache@,
            final(self).usn_counter == old(self).usn_counter,
            final(self).current_notetype_id == old(self).current_notetype_id,
            final(self).schema_modified == old(self).schema_modified,
            r is Err ==> final(self).storage.notetypes@ == old(self).storage.notetypes@,
            r is Err <==> (prep_fails(old(nt)@) || id_space_full(old(self).storage.notetypes@)
                || (old(nt)@.id.0 > 0 && storage_has(
                old(self).storage.notetypes@,
                old(nt)@.id,
            ))),
            prep_fails(old(nt)@) ==> (r matches Err(e) ==> prep_err_ok(old(nt)@, e)),
            r is Ok ==> ({
                let s0 = old(self).storage.notetypes@;
                let s1 = final(self).storage.notetypes@;
                &&& s1.len() == s0.len() + 1
                &&& forall|i: int| 0 <= i < s0.len() ==> #[trigger] s1[i] == s0[i]
                &&& s1.last()@ == final(nt)@
                &&& final(nt)@.id.0 > 0
                &&& !storage_has(s0, final(nt)@.id)
                &&& forall|i: int|
                    0 <= i < s0.len() ==> (#[trigger] s0[i])@.name != final(nt)@.name
                &&& final(nt)@.name.len() > 0
                &&& final(nt)@.fields.len() == old(nt)@.fields.len()
                &&& final(nt)@.templates.len() == old(nt)@.templates.len()
                &&& final(nt)@.config.sort_field_idx < final(nt)@.fields.len()
                &&& final(nt)@.usn == Usn(old(self).usn_counter)
                &&& exists|mid: NotetypeV|
                    #![trigger prepared_ok(with_default_deck(stamped(old(nt)@, mid.mtime_secs, Usn(old(self).usn_counter))), mid, None)]
                    {
                        &&& prepared_ok(
                            with_default_deck(
                                stamped(old(nt)@, mid.mtime_secs, Usn(old(self).usn_counter)),
                            ),
                            mid,
                            None,
                        )
                        &&& final(nt)@.fields == mid.fields
                        &&& final(nt)@.templates == mid.templates
                        &&& final(nt)@.config == mid.config
                        &&& name_extended(mid.name, final(nt)@.name)
                    }
            }),
    {
        let ghost pre_stamp = nt@;
        let usn = Usn(self.usn_counter);
        nt.set_modified(usn);
        let ghost post_stamp = nt@;
        let r = self.add_notetype_inner(nt, usn);
        proof {
            if r is Ok {
                let mid = choose|mid: NotetypeV|
                    #![trigger prepared_ok(with_default_deck(post_stamp), mid, None)]
                    {
                        &&& prepared_ok(with_default_deck(post_stamp), mid, None)
                        &&& nt@.fields == mid.fields
                        &&& nt@.templates == mid.templates
                        &&& nt@.config == mid.config
                        &&& name_extended(mid.name, nt@.name)
                        &&& (nt@.name == mid.name ==> nt@.usn == post_stamp.usn
                            && nt@.mtime_secs == post_stamp.mtime_secs)
                        &&& (nt@.name != mid.name ==> nt@.usn == usn)
                    };
                assert(with_default_deck(post_stamp).mtime_secs == post_stamp.mtime_secs);
                assert(mid.mtime_secs == post_stamp.mtime_secs);
                assert(stamped(pre_stamp, mid.mtime_secs, usn) =~= post_stamp);
                assert(prepared_ok(
                    with_default_deck(stamped(pre_stamp, mid.mtime_secs, usn)),
                    mid,
                    None,
                ));
            }
        }
        r
    }

    /// The inner add path: validation, identity allocation, name uniqueness,
    /// and the insert itself.
    pub fn add_notetype_inner(&mut self, nt: &mut Notetype, usn: Usn) -> (r: Result<
        (),
        AnkiError,
    >)
        requires
            old(self).wf(),
            old(nt)@.fields.len() <= 0xFFFF,
            old(nt)@.templates.len() <= 0xFFFFFFFF,
        ensures
            final(self).wf(),
            final(self).state.notetype_cache@ == old(self).state.notetype_cache@,
            final(self).usn_counter == old(self).usn_counter,
            final(self).current_notetype_id == old(self).current_notetype_id,
            final(self).schema_modified == old(self).schema_modified,
            r is Err ==> final(self).storage.notetypes@ == old(self).storage.notetypes@,
            r is Err <==> (prep_fails(old(nt)@) || id_space_full(old(self).storage.notetypes@)
                || (old(nt)@.id.0 > 0 && storage_has(
                old(self).storage.notetypes@,
                old(nt)@.id,
            ))),
            prep_fails(old(nt)@) ==> (r matches Err(e) ==> prep_err_ok(old(nt)@, e)),
            r is Ok ==> ({
                let s0 = old(self).storage.notetypes@;
                let s1 = final(self).storage.notetypes@;
                &&& s1.len() == s0.len() + 1
                &&& forall|i: int| 0 <= i < s0.len() ==> #[trigger] s1[i] == s0[i]
                &&& s1.last()@ == final(nt)@
                &&& final(nt)@.id.0 > 0
                &&& !storage_has(s0, final(nt)@.id)
                &&& forall|i: int|
                    0 <= i < s0.len() ==> (#[trigger] s0[i])@.name != final(nt)@.name
                &&& final(nt)@.name.len() > 0
                &&& final(nt)@.fields.len() == old(nt)@.fields.len()
                &&& final(nt)@.templates.len() == old(nt)@.templates.len()
                &&& final(nt)@.config.sort_field_idx < final(nt)@.fields.len()
                &&& exists|mid: NotetypeV|
                    #![trigger prepared_ok(with_default_deck(old(nt)@), mid, None)]
                    {
                        &&& prepared_ok(with_default_deck(old(nt)@), mid, None)
                        &&& final(nt)@.fields == mid.fields
                        &&& final(nt)@.templates == mid.templates
                        &&& final(nt)@.config == mid.config
                        &&& name_extended(mid.name, final(nt)@.name)
                        &&& (final(nt)@.name == mid.name ==> final(nt)@.usn == old(nt)@.usn
                            && final(nt)@.mtime_secs == old(nt)@.mtime_secs)
                        &&& (final(nt)@.name != mid.name ==> final(nt)@.usn == usn)
                    }
            }),
    {
        let ghost s0 = self.storage.notetypes@;
        match nt.prepare_for_adding() {
            Err(e) => {
                return Err(e);
            },
            Ok(()) => {},
        }
        let ghost mid0 = nt@;
        // allocate or check the identity
        let mut max_id: i64 = 0;
        let mut i: usize = 0;
        while i < self.storage.notetypes.len()
            invariant
                i <= self.storage.notetypes.len(),
                s0 == self.storage.notetypes@,
                0 <= max_id,
                forall|j: int| 0 <= j < i ==> (#[trigger] s0[j]@.id).0 <= max_id,
                max_id > 0 ==> exists|j: int| 0 <= j < i && (#[trigger] s0[j]@.id).0 == max_id,
            decreases self.storage.notetypes.len() - i,
        {
            let cand = self.storage.notetypes[i].id.0;
            if cand > max_id {
                max_id = cand;
                assert(s0[i as int]@.id.0 == max_id);
            }
            i = i + 1;
        }
        if max_id == 0x7fff_ffff_ffff_ffff {
            assert(id_space_full(s0));
            return Err(AnkiError::invalid_input("no notetype id available"));
        }
        assert(!id_space_full(s0)) by {
            if id_space_full(s0) {
                let j = choose|j: int|
                    0 <= j < s0.len() && (#[trigger] s0[j]@.id).0 == 0x7fff_ffff_ffff_ffff;
            }
        }
        if nt.id.0 <= 0 {
            nt.id = NotetypeId(max_id + 1);
            assert(!storage_has(s0, nt.id)) by {
                if storage_has(s0, nt.id) {
                    let j = choose|j: int|
                        0 <= j < s0.len() && (#[trigger] s0[j]@.id) == nt@.id;
                }
            }
        } else {
            match self.storage.find_index(nt.id) {
                Some(_) => {
                    assert(storage_has(s0, old(nt)@.id));
                    return Err(AnkiError::invalid_input("notetype id already exists"));
                },
                None => {},
            }
        }
        match self.ensure_notetype_name_unique(nt, usn) {
            Err(e) => {
                return Err(e);
            },
            Ok(()) => {},
        }
        let ghost cache0 = self.state.notetype_cache@;
        assert(!storage_has(s0, nt@.id));
        assert(nt@.id.0 > 0);
        assert(nt@.name.len() > 0);
        assert(forall|i: int|
            0 <= i < s0.len() ==> (#[trigger] s0[i]@.id) != nt@.id) by {
            if exists|i: int| 0 <= i < s0.len() && (#[trigger] s0[i]@.id) == nt@.id {
                let w = choose|i: int| 0 <= i < s0.len() && (#[trigger] s0[i]@.id) == nt@.id;
            }
        }
        assert(forall|i: int|
            0 <= i < s0.len() ==> (#[trigger] s0[i])@.name != nt@.name);
        self.storage.notetypes.push(nt.snapshot());
        proof {
            let s1 = self.storage.notetypes@;
            assert(s1.last()@ == nt@);
            assert(forall|i: int| 0 <= i < s0.len() ==> #[trigger] s1[i] == s0[i]);
            assert forall|a: int, b: int|
                0 <= a < b < s1.len() implies (#[trigger] s1[a]@.id) != (#[trigger] s1[b]@.id)
                && (s1[a]@.name) != (s1[b]@.name) by {
                if b == s1.len() - 1 {
                    assert(s1[a] == s0[a]);
                    assert(s1[b]@ == nt@);
                } else {
                    assert(s1[a] == s0[a] && s1[b] == s0[b]);
                }
            }
            assert forall|i: int|
                0 <= i < s1.len() implies 0 < (#[trigger] s1[i]@.id).0 && s1[i]@.fields.len()
                <= 0xFFFF && s1[i]@.templates.len() <= 0xFFFFFFFF by {
                if i == s1.len() - 1 {
                    assert(s1[i]@ == nt@);
                } else {
                    assert(s1[i] == s0[i]);
                }
            }
            assert forall|j: int|
                0 <= j < cache0.len() implies (#[trigger] cache0[j]).1@.id == cache0[j].0 && (
            exists|q: int| 0 <= q < s1.len() && (#[trigger] s1[q])@ == cache0[j].1@) by {
                let w = choose|q: int| 0 <= q < s0.len() && (#[trigger] s0[q])@ == cache0[j].1@;
                assert(s1[w]@ == cache0[j].1@);
            }
            assert(prepared_ok(with_default_deck(old(nt)@), mid0, None));
            assert(nt@.fields == mid0.fields && nt@.templates == mid0.templates && nt@.config
                == mid0.config);
            assert(name_extended(mid0.name, nt@.name));
        }
        Ok(())
    }

    /// Saves changes to an existing schema: validates against the persisted
    /// version, rejects a stale write, re-stamps unless asked to preserve the
    /// sequence number, persists, and evicts the cached snapshot.
    pub fn update_notetype(&mut self, nt: &mut Notetype, preserve_usn: bool) -> (r: Result<
        (),
        AnkiError,
    >)
        requires
            old(self).wf(),
            old(nt)@.fields.len() <= 0xFFFF,
            old(nt)@.templates.len() <= 0xFFFFFFFF,
        ensures
            final(self).wf(),
            final(self).usn_counter == old(self).usn_counter,
            final(self).current_notetype_id == old(self).current_notetype_id,
            final(self).schema_modified == old(self).schema_modified,
            r is Err ==> final(self).storage.notetypes@ == old(self).storage.notetypes@,
            r is Err <==> (prep_fails(old(nt)@) || (!prep_fails(old(nt)@) && stale_against(
                old(self).storage.notetypes@,
                old(nt)@,
            ))),
            r matches Err(e) ==> (if prep_fails(old(nt)@) {
                prep_err_ok(old(nt)@, e)
            } else {
                e matches AnkiError::InvalidInput(m) && m@ == "attempt to save stale notetype"@
            }),
            r is Ok ==> ({
                let s0 = old(self).storage.notetypes@;
                let s1 = final(self).storage.notetypes@;
                &&& s1.len() == s0.len()
                &&& forall|i: int|
                    0 <= i < s0.len() ==> (if (#[trigger] s0[i])@.id == old(nt)@.id {
                        s1[i]@ == final(nt)@
                    } else {
                        s1[i] == s0[i]
                    })
                &&& final(nt)@.id == old(nt)@.id
                &&& forall|j: int|
                    0 <= j < final(self).state.notetype_cache@.len() ==> (#[trigger] final(self).state.notetype_cache@[j]).0 != old(nt)@.id
                &&& (!preserve_usn ==> final(nt)@.usn == Usn(old(self).usn_counter))
                &&& exists|mid: NotetypeV|
                    #![trigger prepared_ok(old(nt)@, mid, storage_find(old(self).storage.notetypes@, old(nt)@.id))]
                    {
                        &&& prepared_ok(
                            old(nt)@,
                            mid,
                            storage_find(old(self).storage.notetypes@, old(nt)@.id),
                        )
                        &&& final(nt)@.id == mid.id
                        &&& final(nt)@.fields == mid.fields
                        &&& final(nt)@.templates == mid.templates
                        &&& final(nt)@.config == mid.config
                        &&& name_extended(mid.name, final(nt)@.name)
                        &&& (preserve_usn && final(nt)@.name == mid.name ==> final(nt)@.usn
                            == old(nt)@.usn && final(nt)@.mtime_secs == old(nt)@.mtime_secs)
                        &&& (final(nt)@.name != mid.name ==> final(nt)@.usn == Usn(
                            old(self).usn_counter,
                        ))
                    }
            }),
    {
        let ghost s0 = self.storage.notetypes@;
        let existing = match self.get_notetype(nt.id) {
            Ok(x) => x,
            Err(_) => {
                proof {
                    assert(false);
                }
                None
            },
        };
        proof {
            if let Some(e) = &existing {
                assert(e@.fields.len() <= 0xFFFF);
            }
        }
        match nt.prepare_for_update(existing.as_ref()) {
            Err(e) => {
                return Err(e);
            },
            Ok(()) => {},
        }
        let ghost mid0 = nt@;
        proof {
            match &existing {
                Some(e) => {
                    assert(storage_has(s0, old(nt)@.id));
                    let w = choose|i: int| 0 <= i < s0.len() && (#[trigger] s0[i]@.id) == old(
                        nt,
                    )@.id;
                    let v = choose|i: int|
                        0 <= i < s0.len() && (#[trigger] s0[i])@ == e@;
                    assert(s0[v]@.id == old(nt)@.id);
                    assert(v == w);
                    assert(storage_find(s0, old(nt)@.id) == Some(e@));
                },
                None => {
                    assert(storage_find(s0, old(nt)@.id) is None);
                },
            }
            assert(prepared_ok(old(nt)@, mid0, storage_find(s0, old(nt)@.id)));
        }
        match &existing {
            Some(cur) => {
                if cur.mtime_secs.0 > nt.mtime_secs.0 {
                    proof {
                        assert(stale_against(s0, old(nt)@));
                    }
                    return Err(AnkiError::invalid_input("attempt to save stale notetype"));
                }
            },
            None => {},
        }
        proof {
            if stale_against(s0, old(nt)@) {
                let w = choose|i: int|
                    0 <= i < s0.len() && (#[trigger] s0[i]@.id) == old(nt)@.id && s0[
                        i
                    ]@.mtime_secs.0 > old(nt)@.mtime_secs.0;
                assert(existing matches Some(e) && e@.id == old(nt)@.id);
                if let Some(e) = existing {
                    assert(e@ == s0[w]@);
                }
                assert(false);
            }
        }
        let usn = Usn(self.usn_counter);
        if !preserve_usn {
            nt.set_modified(usn);
        }
        match self.ensure_notetype_name_unique(nt, usn) {
            Err(e) => {
                return Err(e);
            },
            Ok(()) => {},
        }
        match self.storage.find_index(nt.id) {
            Some(i) => {
                let ghost sbefore = self.storage.notetypes@;
                self.storage.notetypes.remove(i);
                self.storage.notetypes.insert(i, nt.snapshot());
                proof {
                    assert(self.storage.notetypes@ =~= sbefore.update(
                        i as int,
                        self.storage.notetypes@[i as int],
                    ));
                }
            },
            None => {},
        }
        let ghost target = self.storage.notetypes@;
        proof {
            assert forall|j: int|
                0 <= j < self.state.notetype_cache@.len() && (
            #[trigger] self.state.notetype_cache@[j]).0 != nt@.id implies
                self.state.notetype_cache@[j].1@.id == self.state.notetype_cache@[j].0 && (exists|
            q: int| 0 <= q < target.len() && (#[trigger] target[q])@
                == self.state.notetype_cache@[j].1@) by {
                let w = choose|q: int|
                    0 <= q < s0.len() && (#[trigger] s0[q])@ == self.state.notetype_cache@[j].1@;
                assert(s0[w]@.id != nt@.id);
                assert(target[w]@ == self.state.notetype_cache@[j].1@);
            }
        }
        self.evict_cached(nt.id, Ghost(target));
        proof {
            assert(prepared_ok(old(nt)@, mid0, storage_find(s0, old(nt)@.id)));
            assert(nt@.id == mid0.id && nt@.fields == mid0.fields && nt@.templates
                == mid0.templates && nt@.config == mid0.config);
            assert(name_extended(mid0.name, nt@.name));
        }
        Ok(())
    }

    /// The schema stored under this identity, as an owned snapshot, read
    /// through the cache.
    pub fn get_notetype(&mut self, ntid: NotetypeId) -> (r: Result<Option<Notetype>, AnkiError>)
        requires
            old(self).wf(),
        ensures
            final(self).wf(),
            final(self).storage == old(self).storage,
            final(self).usn_counter == old(self).usn_counter,
            final(self).current_notetype_id == old(self).current_notetype_id,
            final(self).schema_modified == old(self).schema_modified,
            r is Ok,
            match r {
                Ok(Some(nt)) => nt@.id == ntid && (exists|i: int|
                    0 <= i < final(self).storage.notetypes@.len() && (#[trigger] final(self).storage.notetypes@[i])@ == nt@) && (exists|j: int|
                    0 <= j < final(self).state.notetype_cache@.len() && (#[trigger] final(self).state.notetype_cache@[j]).0 == ntid && final(self).state.notetype_cache@[j].1@
                        == nt@),
                Ok(None) => !storage_has(final(self).storage.notetypes@, ntid)
                    && final(self).state.notetype_cache@ == old(self).state.notetype_cache@,
                Err(_) => false,
            },
    {
        let mut j: usize = 0;
        while j < self.state.notetype_cache.len()
            invariant
                old(self).wf(),
                self == old(self),
            decreases self.state.notetype_cache.len() - j,
        {
            if self.state.notetype_cache[j].0 == ntid {
                let found = self.state.notetype_cache[j].1.snapshot();
                assert(found@.id == ntid);
                assert(self.state.notetype_cache@[j as int].0 == ntid
                    && self.state.notetype_cache@[j as int].1@ == found@);
                return Ok(Some(found));
            }
            j = j + 1;
        }
        match self.storage.find_index(ntid) {
            Some(i) => {
                let value = self.storage.notetypes[i].snapshot();
                let copy = value.snapshot();
                let ghost cache0 = self.state.notetype_cache@;
                self.state.notetype_cache.push((ntid, copy));
                proof {
                    let c1 = self.state.notetype_cache@;
                    assert(c1 =~= cache0.push((ntid, copy)));
                    assert forall|q: int|
                        0 <= q < c1.len() implies (#[trigger] c1[q]).1@.id == c1[q].0 && (exists|
                    w: int| 0 <= w < self.storage.notetypes@.len() && (
                    #[trigger] self.storage.notetypes@[w])@ == c1[q].1@) by {
                        if q < cache0.len() {
                            assert(c1[q] == cache0[q]);
                            let w = choose|w: int|
                                0 <= w < self.storage.notetypes@.len() && (
                                #[trigger] self.storage.notetypes@[w])@ == cache0[q].1@;
                        } else {
                            assert(c1[q].1@ == self.storage.notetypes@[i as int]@);
                        }
                    }
                }
                proof {
                    let c1 = self.state.notetype_cache@;
                    assert(c1[c1.len() - 1].0 == ntid && c1[c1.len() - 1].1@ == value@);
                }
                Ok(Some(value))
            },
            None => Ok(None),
        }
    }

    /// The schema stored under exactly this name, if any.
    pub fn get_notetype_by_name(&mut self, name: &str) -> (r: Result<Option<Notetype>, AnkiError>)
        requires
            old(self).wf(),
        ensures
            final(self).wf(),
            final(self).storage == old(self).storage,
            final(self).usn_counter == old(self).usn_counter,
            final(self).current_notetype_id == old(self).current_notetype_id,
            final(self).schema_modified == old(self).schema_modified,
            r is Ok,
            match r {
                Ok(Some(nt)) => exists|i: int|
                    0 <= i < final(self).storage.notetypes@.len() && (#[trigger] final(self).storage.notetypes@[i])@ == nt@ && nt@.name == name@,
                Ok(None) => forall|i: int|
                    0 <= i < final(self).storage.notetypes@.len() ==> (#[trigger] final(self).storage.notetypes@[i])@.name != name@,
                Err(_) => false,
            },
    {
        match self.storage.get_notetype_id(name) {
            Some(ntid) => {
                let ghost s = self.storage.notetypes@;
                proof {
                    let w = choose|i: int|
                        0 <= i < s.len() && (#[trigger] s[i])@.name == name@ && s[i]@.id == ntid;
                }
                let r = self.get_notetype(ntid);
                proof {
                    let w = choose|i: int|
                        0 <= i < s.len() && (#[trigger] s[i])@.name == name@ && s[i]@.id == ntid;
                    if let Ok(Some(nt)) = &r {
                        let v = choose|i: int|
                            0 <= i < self.storage.notetypes@.len() && (
                            #[trigger] self.storage.notetypes@[i])@ == nt@;
                        assert(self.storage.notetypes@[v]@.id == self.storage.notetypes@[w]@.id);
                        assert(v == w);
                    }
                }
                r
            },
            None => Ok(None),
        }
    }

    /// Every stored schema, as identity-snapshot pairs in storage order.
    pub fn get_all_notetypes(&mut self) -> (r: Result<Vec<(NotetypeId, Notetype)>, AnkiError>)
        requires
            old(self).wf(),
        ensures
            final(self).wf(),
            *final(self) == *old(self),
            r is Ok,
            match r {
                Ok(v) => v@.len() == final(self).storage.notetypes@.len() && (forall|i: int|
                    0 <= i < v@.len() ==> (#[trigger] v@[i]).0 == final(self).storage.notetypes@[
                        i
                    ]@.id && v@[i].1@ == final(self).storage.notetypes@[i]@),
                Err(_) => false,
            },
    {
        let mut out: Vec<(NotetypeId, Notetype)> = Vec::new();
        let mut i: usize = 0;
        while i < self.storage.notetypes.len()
            invariant
                i <= self.storage.notetypes.len(),
                out@.len() == i,
                forall|j: int|
                    0 <= j < i ==> (#[trigger] out@[j]).0 == self.storage.notetypes@[j]@.id
                        && out@[j].1@ == self.storage.notetypes@[j]@,
            decreases self.storage.notetypes.len() - i,
        {
            let nt = &self.storage.notetypes[i];
            out.push((nt.id, nt.snapshot()));
            i = i + 1;
        }
        Ok(out)
    }

    /// Removes the schema under this identity, evicting its snapshot and
    /// marking the whole schema generation modified. When the last schema
    /// goes, a stock schema takes its place, so the collection is never left
    /// empty; either way the first remaining schema becomes current.
    pub fn remove_notetype(&mut self, ntid: NotetypeId) -> (r: Result<(), AnkiError>)
        requires
            old(self).wf(),
        ensures
            final(self).wf(),
            final(self).usn_counter == old(self).usn_counter,
            r is Err ==> *final(self) == *old(self) && storage_without(
                old(self).storage.notetypes@,
                ntid,
            ).len() == 0 && prep_fails(stock_notetype_view()),
            r is Ok ==> ({
                let rem = storage_without(old(self).storage.notetypes@, ntid);
                &&& final(self).schema_modified == true
                &&& (forall|j: int|
                    0 <= j < final(self).state.notetype_cache@.len() ==> (#[trigger] final(self).state.notetype_cache@[j]).0 != ntid)
                &&& if rem.len() > 0 {
                    &&& final(self).storage.notetypes@ == rem
                    &&& final(self).current_notetype_id == rem[0]@.id
                    &&& !storage_has(final(self).storage.notetypes@, ntid)
                } else {
                    &&& final(self).storage.notetypes@.len() == 1
                    &&& final(self).current_notetype_id == final(self).storage.notetypes@[0]@.id
                    &&& final(self).storage.notetypes@[0]@.id == NotetypeId(1)
                    &&& (storage_has(final(self).storage.notetypes@, ntid) ==> ntid
                        == NotetypeId(1))
                    &&& exists|mid: NotetypeV|
                        #![trigger prepared_ok(with_default_deck(stamped(stock_notetype_view(), mid.mtime_secs, Usn(old(self).usn_counter))), mid, None)]
                        {
                            &&& prepared_ok(
                                with_default_deck(
                                    stamped(
                                        stock_notetype_view(),
                                        mid.mtime_secs,
                                        Usn(old(self).usn_counter),
                                    ),
                                ),
                                mid,
                                None,
                            )
                            &&& final(self).storage.notetypes@[0]@ == NotetypeV {
                                id: NotetypeId(1),
                                ..mid
                            }
                        }
                }
            }),
    {
        let ghost s0 = self.storage.notetypes@;
        let idxo = self.storage.find_index(ntid);
        proof {
            match idxo {
                Some(i) => {
                    assert(forall|q: int|
                        0 <= q < s0.len() && q != i ==> (#[trigger] s0[q]@.id) != ntid);
                    lemma_storage_without_at(s0, ntid, i as int);
                },
                None => {
                    lemma_storage_without_absent(s0, ntid);
                },
            }
        }
        let will_be_empty = match idxo {
            Some(_) => self.storage.notetypes.len() == 1,
            None => self.storage.notetypes.len() == 0,
        };
        if will_be_empty {
            assert(storage_without(s0, ntid).len() == 0);
            let mut stock = stock_notetype();
            let usn = Usn(self.usn_counter);
            stock.set_modified(usn);
            let ghost post_stamp = stock@;
            proof {
                assert(post_stamp.fields == stock_notetype_view().fields);
                assert(post_stamp.templates == stock_notetype_view().templates);
                assert(post_stamp.name == stock_notetype_view().name);
                assert(prep_fails(post_stamp) == prep_fails(stock_notetype_view()));
            }
            match stock.prepare_for_adding() {
                Err(e) => {
                    return Err(e);
                },
                Ok(()) => {},
            }
            let ghost mid0 = stock@;
            proof {
                assert(prepared_ok(with_default_deck(post_stamp), mid0, None));
                assert(with_default_deck(post_stamp).mtime_secs == post_stamp.mtime_secs);
                assert(mid0.mtime_secs == post_stamp.mtime_secs);
                assert(stamped(stock_notetype_view(), mid0.mtime_secs, usn) =~= post_stamp);
                assert(prepared_ok(
                    with_default_deck(stamped(stock_notetype_view(), mid0.mtime_secs, usn)),
                    mid0,
                    None,
                ));
            }
            stock.id = NotetypeId(1);
            let ghost stockv = stock@;
            proof {
                assert(stockv =~= NotetypeV { id: NotetypeId(1), ..mid0 });
            }
            self.schema_modified = true;
            match idxo {
                Some(i) => {
                    self.storage.notetypes.remove(i);
                },
                None => {},
            }
            self.storage.notetypes.push(stock);
            self.current_notetype_id = NotetypeId(1);
            let ghost target = self.storage.notetypes@;
            proof {
                assert(target.len() == 1 && target[0]@ == stockv);
                assert forall|j: int|
                    0 <= j < self.state.notetype_cache@.len() && (
                #[trigger] self.state.notetype_cache@[j]).0 != ntid implies
                    self.state.notetype_cache@[j].1@.id == self.state.notetype_cache@[j].0 && (
                exists|q: int| 0 <= q < target.len() && (#[trigger] target[q])@
                    == self.state.notetype_cache@[j].1@) by {
                    let w = choose|q: int|
                        0 <= q < s0.len() && (#[trigger] s0[q])@
                            == self.state.notetype_cache@[j].1@;
                    assert(s0[w]@.id == ntid);
                    assert(false);
                }
            }
            self.evict_cached(ntid, Ghost(target));
            Ok(())
        } else {
            self.schema_modified = true;
            match idxo {
                Some(i) => {
                    self.storage.notetypes.remove(i);
                },
                None => {},
            }
            proof {
                assert(self.storage.notetypes@ == storage_without(s0, ntid));
                lemma_storage_without_no_id(s0, ntid);
            }
            let ghost target = self.storage.notetypes@;
            proof {
                assert forall|j: int|
                    0 <= j < self.state.notetype_cache@.len() && (
                #[trigger] self.state.notetype_cache@[j]).0 != ntid implies
                    self.state.notetype_cache@[j].1@.id == self.state.notetype_cache@[j].0 && (
                exists|q: int| 0 <= q < target.len() && (#[trigger] target[q])@
                    == self.state.notetype_cache@[j].1@) by {
                    let w = choose|q: int|
                        0 <= q < s0.len() && (#[trigger] s0[q])@
                            == self.state.notetype_cache@[j].1@;
                    match idxo {
                        Some(i) => {
                            assert(w != i);
                            if w < i {
                                assert(target[w] == s0[w]);
                            } else {
                                assert(target[w - 1] == s0[w]);
                            }
                        },
                        None => {
                            assert(target[w] == s0[w]);
                        },
                    }
                }
            }
            self.evict_cached(ntid, Ghost(target));
            let first = self.storage.notetypes[0].id;
            self.current_notetype_id = first;
            Ok(())
        }
    }
}

} // verus!
