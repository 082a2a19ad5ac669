use vstd::prelude::*;
use crate::ids::DeckId;
use crate::ids::NotetypeId;
use crate::ids::TimestampSecs;
use crate::ids::Usn;
use crate::template::FieldRenames;
use crate::template::FieldRequirements;
use crate::template::ParsedTemplate;
use crate::template::RenamesV;
use crate::template::Tok;
use crate::template::balanced;
use crate::template::names_of;
use crate::template::parse;
use crate::template::spec_rename;
use crate::template::spec_requirements;
use crate::template::spec_tokenize;
use crate::template::toks_source;
use crate::template::SpecReq;
use crate::text::fold_of;
use crate::text::nfc_of;
use crate::text::normalize_nfc;
use crate::text::now_secs;
use crate::text::unicase_eq;

verus! {

// ---------------------------------------------------------------------------
// Data model.
// ---------------------------------------------------------------------------

/// A named, ordered slot of a schema. `ord` is the position the field held in
/// the previously persisted schema; newly added fields carry none.
pub struct NoteField {
    pub ord: Option<u32>,
    pub name: String,
}

/// Model of a field.
#[verifier::ext_equal]
pub struct FieldV {
    pub ord: Option<u32>,
    pub name: Seq<char>,
}

impl View for NoteField {
    type V = FieldV;

    open spec fn view(&self) -> FieldV {
        FieldV { ord: self.ord, name: self.name@ }
    }
}

/// The two format strings of a template.
pub struct CardTemplateConfig {
    pub q_format: String,
    pub a_format: String,
}

/// A named pair of question and answer format strings.
pub struct CardTemplate {
    pub ord: Option<u32>,
    pub name: String,
    pub config: CardTemplateConfig,
}

/// Model of a template.
#[verifier::ext_equal]
pub struct TemplateV {
    pub ord: Option<u32>,
    pub name: Seq<char>,
    pub q_format: Seq<char>,
    pub a_format: Seq<char>,
}

impl View for CardTemplate {
    type V = TemplateV;

    open spec fn view(&self) -> TemplateV {
        TemplateV {
            ord: self.ord,
            name: self.name@,
            q_format: self.config.q_format@,
            a_format: self.config.a_format@,
        }
    }
}

/// Whether one template serves every card ordinal (cloze) or the template at
/// the card's own ordinal does (standard).
#[derive(Clone, Copy, PartialEq, Eq, Structural, Debug)]
pub enum NotetypeKind {
    Standard,
    Cloze,
}

/// How the listed field ordinals decide whether a card is produced.
#[derive(Clone, Copy, PartialEq, Eq, Structural, Debug)]
pub enum CardRequirementKind {
    Any,
    All,
    Unsatisfiable,
}

/// Which fields must be non-empty for the template at `card_ord` to produce a
/// card.
pub struct CardRequirement {
    pub card_ord: u32,
    pub kind: CardRequirementKind,
    pub field_ords: Vec<u32>,
}

/// Model of a requirement.
#[verifier::ext_equal]
pub struct ReqV {
    pub card_ord: u32,
    pub kind: CardRequirementKind,
    pub field_ords: Seq<u32>,
}

impl View for CardRequirement {
    type V = ReqV;

    open spec fn view(&self) -> ReqV {
        ReqV { card_ord: self.card_ord, kind: self.kind, field_ords: self.field_ords@ }
    }
}

/// Schema-level configuration.
pub struct NotetypeConfig {
    pub kind: NotetypeKind,
    pub sort_field_idx: u32,
    pub reqs: Vec<CardRequirement>,
    pub target_deck_id: i64,
}

/// Model of the configuration.
#[verifier::ext_equal]
pub struct ConfigV {
    pub kind: NotetypeKind,
    pub sort_field_idx: u32,
    pub reqs: Seq<ReqV>,
    pub target_deck_id: i64,
}

impl View for NotetypeConfig {
    type V = ConfigV;

    open spec fn view(&self) -> ConfigV {
        ConfigV {
            kind: self.kind,
            sort_field_idx: self.sort_field_idx,
            reqs: self.reqs@.map_values(|r: CardRequirement| r@),
            target_deck_id: self.target_deck_id,
        }
    }
}

/// A note type: the schema of a class of notes, with its fields and card
/// templates.
pub struct Notetype {
    pub id: NotetypeId,
    pub name: String,
    pub mtime_secs: TimestampSecs,
    pub usn: Usn,
    pub fields: Vec<NoteField>,
    pub templates: Vec<CardTemplate>,
    pub config: NotetypeConfig,
}

/// Model of a note type.
#[verifier::ext_equal]
pub struct NotetypeV {
    pub id: NotetypeId,
    pub name: Seq<char>,
    pub mtime_secs: TimestampSecs,
    pub usn: Usn,
    pub fields: Seq<FieldV>,
    pub templates: Seq<TemplateV>,
    pub config: ConfigV,
}

impl View for Notetype {
    type V = NotetypeV;

    open spec fn view(&self) -> NotetypeV {
        NotetypeV {
            id: self.id,
            name: self.name@,
            mtime_secs: self.mtime_secs,
            usn: self.usn,
            fields: self.fields@.map_values(|f: NoteField| f@),
            templates: self.templates@.map_values(|t: CardTemplate| t@),
            config: self.config@,
        }
    }
}

/// A new, empty note of a given note type: one empty text slot per field.
pub struct Note {
    pub notetype_id: NotetypeId,
    pub fields: Vec<String>,
}

/// A template's question or answer failed to parse; carries enough identity
/// for the caller to locate it.
#[derive(Debug)]
pub struct TemplateSaveError {
    pub notetype: String,
    pub ordinal: usize,
}

/// The closed error taxonomy of schema validation and storage coordination.
#[derive(Debug)]
pub enum AnkiError {
    InvalidInput(String),
    TemplateSaveError(TemplateSaveError),
    NotFound,
}

impl AnkiError {
    /// An `InvalidInput` with the given message.
    pub fn invalid_input(s: &str) -> (r: AnkiError)
        ensures
            r matches AnkiError::InvalidInput(m) && m@ == s@,
    {
        AnkiError::InvalidInput(s.to_owned())
    }
}

// ---------------------------------------------------------------------------
// Spec helpers.
// ---------------------------------------------------------------------------

/// The names of a run of fields.
pub open spec fn field_names(fs: Seq<FieldV>) -> Seq<Seq<char>> {
    fs.map_values(|f: FieldV| f.name)
}

/// The names of a run of templates.
pub open spec fn template_names(ts: Seq<TemplateV>) -> Seq<Seq<char>> {
    ts.map_values(|t: TemplateV| t.name)
}

/// All names distinct under case-insensitive comparison.
pub open spec fn folds_distinct(names: Seq<Seq<char>>) -> bool {
    forall|a: int, b: int|
        0 <= a < b < names.len() ==> #[trigger] fold_of(names[a]) != #[trigger] fold_of(names[b])
}

/// `new` is `base` with some number of collision markers appended.
pub open spec fn name_extended(base: Seq<char>, new: Seq<char>) -> bool {
    &&& base.len() <= new.len()
    &&& new.subrange(0, base.len() as int) == base
    &&& forall|k: int| base.len() <= k < new.len() ==> new[k] == '+'
}

/// `base` with exactly `k` collision markers appended.
pub open spec fn plussed(base: Seq<char>, k: int) -> Seq<char> {
    base + Seq::new(k as nat, |x: int| '+')
}

/// The candidate name collides, case-insensitively, with one of the first
/// `upto` committed template names.
pub open spec fn collides_with_earlier_t(done: Seq<CardTemplate>, upto: int, cand: Seq<char>) -> bool {
    exists|j: int|
        0 <= j < upto && fold_of((#[trigger] done[j])@.name) == fold_of(cand)
}

/// The first `upto` repaired template names carry the least number of
/// markers: any shorter extension of the input name would still collide,
/// case-insensitively, with an earlier final name.
pub open spec fn markers_minimal_t(done: Seq<CardTemplate>, olds: Seq<TemplateV>, upto: int) -> bool {
    forall|i2: int, k2: int|
        #![trigger plussed(olds[i2].name, k2)]
        0 <= i2 < upto && 0 <= k2 < done[i2]@.name.len() - olds[i2].name.len()
            ==> collides_with_earlier_t(done, i2, plussed(olds[i2].name, k2))
}

/// Every shorter extension of `base` than `cur` still collides with one of
/// the first `upto` committed template names.
spec fn shorter_collide_t(done: Seq<CardTemplate>, base: Seq<char>, cur: Seq<char>, upto: int) -> bool {
    forall|k2: int|
        #![trigger plussed(base, k2)]
        0 <= k2 < cur.len() - base.len() ==> collides_with_earlier_t(done, upto, plussed(base, k2))
}

/// The candidate name collides, case-insensitively, with one of the first
/// `upto` committed field names.
pub open spec fn collides_with_earlier_f(done: Seq<NoteField>, upto: int, cand: Seq<char>) -> bool {
    exists|j: int|
        0 <= j < upto && fold_of((#[trigger] done[j])@.name) == fold_of(cand)
}

/// The same, against committed field names.
spec fn shorter_collide_f(done: Seq<NoteField>, base: Seq<char>, cur: Seq<char>, upto: int) -> bool {
    forall|k2: int|
        #![trigger plussed(base, k2)]
        0 <= k2 < cur.len() - base.len() ==> collides_with_earlier_f(done, upto, plussed(base, k2))
}

/// The same, for the repaired field names.
pub open spec fn markers_minimal_f(done: Seq<NoteField>, olds: Seq<FieldV>, upto: int) -> bool {
    forall|i2: int, k2: int|
        #![trigger plussed(olds[i2].name, k2)]
        0 <= i2 < upto && 0 <= k2 < done[i2]@.name.len() - olds[i2].name.len()
            ==> collides_with_earlier_f(done, i2, plussed(olds[i2].name, k2))
}

proof fn lemma_markers_step_t(pre: Seq<CardTemplate>, item: CardTemplate, olds: Seq<TemplateV>, upto: int)
    requires
        0 <= upto,
        upto == pre.len(),
        upto < olds.len(),
        markers_minimal_t(pre, olds, upto),
        shorter_collide_t(pre, olds[upto].name, item@.name, upto),
    ensures
        markers_minimal_t(pre.push(item), olds, upto + 1),
{
    let done = pre.push(item);
    assert forall|i2: int, k2: int|
        #![trigger plussed(olds[i2].name, k2)]
        0 <= i2 < upto + 1 && 0 <= k2 < done[i2]@.name.len() - olds[i2].name.len() implies
        collides_with_earlier_t(done, i2, plussed(olds[i2].name, k2)) by {
        if i2 < upto {
            assert(collides_with_earlier_t(pre, i2, plussed(olds[i2].name, k2)));
            let j = choose|j: int|
                0 <= j < i2 && fold_of((#[trigger] pre[j])@.name) == fold_of(
                    plussed(olds[i2].name, k2),
                );
            assert(done[j] == pre[j]);
            assert(fold_of((done[j])@.name) == fold_of(plussed(olds[i2].name, k2)));
        } else {
            assert(done[i2]@.name == item@.name);
            assert(collides_with_earlier_t(pre, upto, plussed(olds[upto].name, k2)));
            let j = choose|j: int|
                0 <= j < upto && fold_of((#[trigger] pre[j])@.name) == fold_of(
                    plussed(olds[upto].name, k2),
                );
            assert(done[j] == pre[j]);
            assert(fold_of((done[j])@.name) == fold_of(plussed(olds[i2].name, k2)));
        }
    }
}

proof fn lemma_markers_step_f(pre: Seq<NoteField>, item: NoteField, olds: Seq<FieldV>, upto: int)
    requires
        0 <= upto,
        upto == pre.len(),
        upto < olds.len(),
        markers_minimal_f(pre, olds, upto),
        shorter_collide_f(pre, olds[upto].name, item@.name, upto),
    ensures
        markers_minimal_f(pre.push(item), olds, upto + 1),
{
    let done = pre.push(item);
    assert forall|i2: int, k2: int|
        #![trigger plussed(olds[i2].name, k2)]
        0 <= i2 < upto + 1 && 0 <= k2 < done[i2]@.name.len() - olds[i2].name.len() implies
        collides_with_earlier_f(done, i2, plussed(olds[i2].name, k2)) by {
        if i2 < upto {
            assert(collides_with_earlier_f(pre, i2, plussed(olds[i2].name, k2)));
            let j = choose|j: int|
                0 <= j < i2 && fold_of((#[trigger] pre[j])@.name) == fold_of(
                    plussed(olds[i2].name, k2),
                );
            assert(done[j] == pre[j]);
            assert(fold_of((done[j])@.name) == fold_of(plussed(olds[i2].name, k2)));
        } else {
            assert(done[i2]@.name == item@.name);
            assert(collides_with_earlier_f(pre, upto, plussed(olds[upto].name, k2)));
            let j = choose|j: int|
                0 <= j < upto && fold_of((#[trigger] pre[j])@.name) == fold_of(
                    plussed(olds[upto].name, k2),
                );
            assert(done[j] == pre[j]);
            assert(fold_of((done[j])@.name) == fold_of(plussed(olds[i2].name, k2)));
        }
    }
}

/// The string with every `"` removed.
pub open spec fn strip_quotes(s: Seq<char>) -> Seq<char>
    decreases s.len()
{
    if s.len() == 0 {
        s
    } else {
        let rest = strip_quotes(s.drop_last());
        if s.last() == '"' {
            rest
        } else {
            rest.push(s.last())
        }
    }
}

/// A field-name character that would break the template grammar or quoting.
pub open spec fn bad_field_char(c: char) -> bool {
    c == ':' || c == '"' || c == '{' || c == '}'
}

/// A field name with the disallowed characters removed.
pub open spec fn field_fix(s: Seq<char>) -> Seq<char>
    decreases s.len()
{
    if s.len() == 0 {
        s
    } else {
        let rest = field_fix(s.drop_last());
        if bad_field_char(s.last()) {
            rest
        } else {
            rest.push(s.last())
        }
    }
}

/// A template name with the disallowed characters removed.
pub open spec fn template_fix(s: Seq<char>) -> Seq<char> {
    strip_quotes(s)
}

/// The format string parses and its sections match up.
pub open spec fn parses_ok(src: Seq<char>) -> bool {
    spec_tokenize(src, 0) matches Some(ts) && balanced(ts)
}

/// The token run of a format string that parses.
pub open spec fn tokens_of(src: Seq<char>) -> Seq<Tok>
    recommends
        parses_ok(src),
{
    spec_tokenize(src, 0)->Some_0
}

/// Both of a template's formats parse.
pub open spec fn template_ok(t: TemplateV) -> bool {
    parses_ok(t.q_format) && parses_ok(t.a_format)
}

/// How an exec parse result relates to a format string.
pub open spec fn parse_rel(src: Seq<char>, r: Option<ParsedTemplate>) -> bool {
    match r {
        Some(pt) => parses_ok(src) && pt@ == tokens_of(src),
        None => !parses_ok(src),
    }
}

/// The requirement entry derived for card ordinal `ord` from a question
/// template's tokens, or from a failed parse.
pub open spec fn spec_card_requirement(names: Seq<Seq<char>>, q: Option<Seq<Tok>>, ord: int) -> ReqV {
    match q {
        Some(ts) => match spec_requirements(ts, names) {
            SpecReq::Any(o) => ReqV {
                card_ord: ord as u32,
                kind: CardRequirementKind::Any,
                field_ords: o.map_values(|x: u16| x as u32),
            },
            SpecReq::All(o) => ReqV {
                card_ord: ord as u32,
                kind: CardRequirementKind::All,
                field_ords: o.map_values(|x: u16| x as u32),
            },
            SpecReq::Unsat => ReqV {
                card_ord: ord as u32,
                kind: CardRequirementKind::Unsatisfiable,
                field_ords: Seq::<u32>::empty(),
            },
        },
        None => ReqV {
            card_ord: ord as u32,
            kind: CardRequirementKind::Unsatisfiable,
            field_ords: Seq::<u32>::empty(),
        },
    }
}

/// The sort index `cur` is `prev` repositioned against the fields' prior
/// ordinals: the first field that kept prior ordinal `prev`, else `prev`
/// clamped into bounds.
pub open spec fn sort_repositioned(fields: Seq<FieldV>, prev: u32, cur: u32) -> bool {
    if exists|i: int| 0 <= i < fields.len() && (#[trigger] fields[i].ord) == Some(prev) {
        &&& cur < fields.len()
        &&& fields[cur as int].ord == Some(prev)
        &&& forall|j: int| 0 <= j < cur ==> (#[trigger] fields[j].ord) != Some(prev)
    } else {
        cur == if prev < fields.len() {
            prev
        } else {
            (fields.len() - 1) as u32
        }
    }
}

// ---------------------------------------------------------------------------
// Rename map derivation.
// ---------------------------------------------------------------------------

/// The map with the first entry for `k` replaced by `(k, v)`, or with `(k, v)`
/// appended when there is none.
pub open spec fn renames_set(m: RenamesV, k: Seq<char>, v: Option<Seq<char>>) -> RenamesV
    decreases m.len()
{
    if m.len() == 0 {
        seq![(k, v)]
    } else if m[0].0 == k {
        seq![(k, v)] + m.drop_first()
    } else {
        seq![m[0]] + renames_set(m.drop_first(), k, v)
    }
}

/// Renames gathered from the first `i` fields: a field that kept a prior
/// ordinal under a different name maps the prior name to its new one.
pub open spec fn gather_renames(new_fields: Seq<FieldV>, cur: Seq<FieldV>, i: int) -> RenamesV
    decreases i when 0 <= i
{
    if i <= 0 {
        Seq::empty()
    } else {
        let m = gather_renames(new_fields, cur, i - 1);
        match new_fields[i - 1].ord {
            Some(o) => if o < cur.len() && cur[o as int].name != new_fields[i - 1].name {
                renames_set(m, cur[o as int].name, Some(new_fields[i - 1].name))
            } else {
                m
            },
            None => m,
        }
    }
}

/// Some field still claims prior ordinal `o`.
pub open spec fn ord_claimed(new_fields: Seq<FieldV>, o: u32) -> bool {
    exists|j: int| 0 <= j < new_fields.len() && (#[trigger] new_fields[j].ord) == Some(o)
}

/// Removals added for the first `i` prior fields whose ordinal no field kept.
pub open spec fn add_removals(m: RenamesV, new_fields: Seq<FieldV>, cur: Seq<FieldV>, i: int) -> RenamesV
    decreases i when 0 <= i
{
    if i <= 0 {
        m
    } else {
        let m2 = add_removals(m, new_fields, cur, i - 1);
        if !ord_claimed(new_fields, (i - 1) as u32) {
            renames_set(m2, cur[i - 1].name, None)
        } else {
            m2
        }
    }
}

/// The rename-and-removal map between the previously persisted fields and the
/// new ones.
pub open spec fn spec_renamed_and_removed(new_fields: Seq<FieldV>, cur: Seq<FieldV>) -> RenamesV {
    add_removals(gather_renames(new_fields, cur, new_fields.len() as int), new_fields, cur, cur.len() as int)
}

// ---------------------------------------------------------------------------
// Validation outcome, shared by the pipeline and the store coordinator.
// ---------------------------------------------------------------------------

/// The schema has no fields.
pub open spec fn prep_fields_empty(nt: NotetypeV) -> bool {
    nt.fields.len() == 0
}

/// The schema has no templates.
pub open spec fn prep_templates_empty(nt: NotetypeV) -> bool {
    nt.templates.len() == 0
}

/// The schema name is empty once quotes are stripped.
pub open spec fn prep_name_empty(nt: NotetypeV) -> bool {
    strip_quotes(nt.name).len() == 0
}

/// Some field name sanitizes away to nothing.
pub open spec fn prep_bad_field_name(nt: NotetypeV) -> bool {
    exists|i: int|
        0 <= i < nt.fields.len() && field_fix(nfc_of(#[trigger] nt.fields[i].name)).len() == 0
}

/// Some template name sanitizes away to nothing.
pub open spec fn prep_bad_template_name(nt: NotetypeV) -> bool {
    exists|i: int|
        0 <= i < nt.templates.len() && template_fix(nfc_of(#[trigger] nt.templates[i].name)).len()
            == 0
}

/// Some template's question or answer fails to parse.
pub open spec fn prep_bad_template(nt: NotetypeV) -> bool {
    exists|i: int| 0 <= i < nt.templates.len() && !template_ok(#[trigger] nt.templates[i])
}

/// Validation fails on this input.
pub open spec fn prep_fails(nt: NotetypeV) -> bool {
    ||| prep_fields_empty(nt)
    ||| prep_templates_empty(nt)
    ||| prep_name_empty(nt)
    ||| prep_bad_field_name(nt)
    ||| prep_bad_template_name(nt)
    ||| prep_bad_template(nt)
}

/// The exact error a failing validation reports, in precedence order.
pub open spec fn prep_err_ok(o: NotetypeV, e: AnkiError) -> bool {
    if prep_fields_empty(o) {
        e matches AnkiError::InvalidInput(m) && m@ == "1 field required"@
    } else if prep_templates_empty(o) {
        e matches AnkiError::InvalidInput(m) && m@ == "1 template required"@
    } else if prep_name_empty(o) {
        e matches AnkiError::InvalidInput(m) && m@ == "Empty note type name"@
    } else if prep_bad_field_name(o) {
        e matches AnkiError::InvalidInput(m) && m@ == "empty field name"@
    } else if prep_bad_template_name(o) {
        e matches AnkiError::InvalidInput(m) && m@ == "empty template name"@
    } else {
        e matches AnkiError::TemplateSaveError(t) && t.notetype@ == nfc_of(strip_quotes(o.name))
            && t.ordinal < o.templates.len() && !template_ok(o.templates[t.ordinal as int])
            && (forall|j: int| 0 <= j < t.ordinal ==> template_ok(#[trigger] o.templates[j]))
    }
}

/// What is left untouched on every failed validation: the identity, stamps,
/// lengths, prior ordinals, stored requirements and every format string.
/// Failure precedes the requirement computation and the rename propagation,
/// so only names (and, past the repositioning step, the sort index) may have
/// been reworked before the error surfaced.
pub open spec fn prep_frame(o: NotetypeV, f: NotetypeV) -> bool {
    &&& f.id == o.id
    &&& f.mtime_secs == o.mtime_secs
    &&& f.usn == o.usn
    &&& f.config.kind == o.config.kind
    &&& f.config.reqs == o.config.reqs
    &&& f.config.target_deck_id == o.config.target_deck_id
    &&& f.fields.len() == o.fields.len()
    &&& f.templates.len() == o.templates.len()
    &&& forall|i: int| 0 <= i < f.fields.len() ==> (#[trigger] f.fields[i]).ord == o.fields[i].ord
    &&& forall|i: int|
        0 <= i < f.templates.len() ==> (#[trigger] f.templates[i]).ord == o.templates[i].ord
            && f.templates[i].q_format == o.templates[i].q_format && f.templates[i].a_format
            == o.templates[i].a_format
}

/// What a successful validation guarantees: `o` the schema as handed in, `f`
/// as validated, `ex` the previously persisted version used for rename and
/// removal detection.
pub open spec fn prepared_ok(o: NotetypeV, f: NotetypeV, ex: Option<NotetypeV>) -> bool {
    &&& !prep_fails(o)
    &&& f.id == o.id
    &&& f.mtime_secs == o.mtime_secs
    &&& f.usn == o.usn
    &&& f.config.kind == o.config.kind
    &&& f.config.target_deck_id == o.config.target_deck_id
    &&& f.name == nfc_of(strip_quotes(o.name))
    &&& f.name.len() > 0
    &&& f.fields.len() == o.fields.len()
    &&& f.templates.len() == o.templates.len()
    &&& forall|i: int|
        0 <= i < f.fields.len() ==> (#[trigger] f.fields[i]).ord == o.fields[i].ord
            && name_extended(field_fix(nfc_of(o.fields[i].name)), f.fields[i].name)
    &&& forall|i: int|
        0 <= i < f.templates.len() ==> (#[trigger] f.templates[i]).ord == o.templates[i].ord
            && name_extended(template_fix(nfc_of(o.templates[i].name)), f.templates[i].name)
    &&& folds_distinct(field_names(f.fields))
    &&& folds_distinct(template_names(f.templates))
    &&& f.config.sort_field_idx < f.fields.len()
    &&& sort_repositioned(f.fields, o.config.sort_field_idx, f.config.sort_field_idx)
    &&& f.config.reqs.len() == f.templates.len()
    &&& forall|i: int|
        0 <= i < f.config.reqs.len() ==> #[trigger] f.config.reqs[i] == spec_card_requirement(
            field_names(f.fields),
            Some(tokens_of(o.templates[i].q_format)),
            i,
        )
    &&& match ex {
        None => forall|i: int|
            0 <= i < f.templates.len() ==> (#[trigger] f.templates[i]).q_format
                == o.templates[i].q_format && f.templates[i].a_format == o.templates[i].a_format,
        Some(cur) => {
            let m = spec_renamed_and_removed(f.fields, cur.fields);
            if m.len() == 0 {
                forall|i: int|
                    0 <= i < f.templates.len() ==> (#[trigger] f.templates[i]).q_format
                        == o.templates[i].q_format && f.templates[i].a_format
                        == o.templates[i].a_format
            } else {
                forall|i: int|
                    0 <= i < f.templates.len() ==> (#[trigger] f.templates[i]).q_format
                        == toks_source(spec_rename(tokens_of(o.templates[i].q_format), m))
                        && f.templates[i].a_format == toks_source(
                        spec_rename(tokens_of(o.templates[i].a_format), m),
                    )
            }
        },
    }
}


// ---------------------------------------------------------------------------
// Executable name sanitizing.
// ---------------------------------------------------------------------------

fn strip_quotes_exec(s: &str) -> (r: String)
    ensures
        r@ == strip_quotes(s@),
{
    let n = s.unicode_len();
    let mut out = String::new();
    let mut i: usize = 0;
    while i < n
        invariant
            i <= n,
            n == s@.len(),
            out@ == strip_quotes(s@.subrange(0, i as int)),
        decreases n - i,
    {
        let ghost pre = s@.subrange(0, i as int);
        let c = s.get_char(i);
        if c != '"' {
            out.push(c);
        }
        i = i + 1;
        proof {
            assert(s@.subrange(0, i as int).drop_last() =~= pre);
            assert(s@.subrange(0, i as int).last() == s@[i - 1]);
        }
    }
    assert(s@.subrange(0, n as int) =~= s@);
    out
}

fn field_fix_exec(s: &str) -> (r: String)
    ensures
        r@ == field_fix(s@),
{
    let n = s.unicode_len();
    let mut out = String::new();
    let mut i: usize = 0;
    while i < n
        invariant
            i <= n,
            n == s@.len(),
            out@ == field_fix(s@.subrange(0, i as int)),
        decreases n - i,
    {
        let ghost pre = s@.subrange(0, i as int);
        let c = s.get_char(i);
        if !(c == ':' || c == '"' || c == '{' || c == '}') {
            out.push(c);
        }
        i = i + 1;
        proof {
            assert(s@.subrange(0, i as int).drop_last() =~= pre);
            assert(s@.subrange(0, i as int).last() == s@[i - 1]);
        }
    }
    assert(s@.subrange(0, n as int) =~= s@);
    out
}

// ---------------------------------------------------------------------------
// Fields and templates.
// ---------------------------------------------------------------------------

impl NoteField {
    /// A newly added field: no prior ordinal yet.
    pub fn new(name: &str) -> (f: NoteField)
        ensures
            f@.ord is None,
            f@.name == name@,
    {
        NoteField { ord: None, name: name.to_owned() }
    }

    /// Strips disallowed characters from the name; fails when nothing is
    /// left.
    pub fn fix_name(&mut self) -> (r: Result<(), AnkiError>)
        ensures
            final(self)@.ord == old(self)@.ord,
            final(self)@.name == field_fix(old(self)@.name),
            r is Err <==> field_fix(old(self)@.name).len() == 0,
            r matches Err(e) ==> e matches AnkiError::InvalidInput(m) && m@
                == "empty field name"@,
    {
        self.name = field_fix_exec(self.name.as_str());
        if self.name.is_empty() {
            Err(AnkiError::invalid_input("empty field name"))
        } else {
            Ok(())
        }
    }
}

impl CardTemplate {
    /// A new template from its name and format strings.
    pub fn new(name: &str, qfmt: &str, afmt: &str) -> (t: CardTemplate)
        ensures
            t@.ord is None,
            t@.name == name@,
            t@.q_format == qfmt@,
            t@.a_format == afmt@,
    {
        CardTemplate {
            ord: None,
            name: name.to_owned(),
            config: CardTemplateConfig { q_format: qfmt.to_owned(), a_format: afmt.to_owned() },
        }
    }

    /// Strips disallowed characters from the name; fails when nothing is
    /// left.
    pub fn fix_name(&mut self) -> (r: Result<(), AnkiError>)
        ensures
            final(self)@.ord == old(self)@.ord,
            final(self)@.q_format == old(self)@.q_format,
            final(self)@.a_format == old(self)@.a_format,
            final(self)@.name == template_fix(old(self)@.name),
            r is Err <==> template_fix(old(self)@.name).len() == 0,
            r matches Err(e) ==> e matches AnkiError::InvalidInput(m) && m@
                == "empty template name"@,
    {
        self.name = strip_quotes_exec(self.name.as_str());
        if self.name.is_empty() {
            Err(AnkiError::invalid_input("empty template name"))
        } else {
            Ok(())
        }
    }

    /// The parsed question format, if it parses.
    pub fn parsed_question(&self) -> (r: Option<ParsedTemplate>)
        ensures
            parse_rel(self@.q_format, r),
    {
        parse(self.config.q_format.as_str())
    }

    /// The parsed answer format, if it parses.
    pub fn parsed_answer(&self) -> (r: Option<ParsedTemplate>)
        ensures
            parse_rel(self@.a_format, r),
    {
        parse(self.config.a_format.as_str())
    }
}

// ---------------------------------------------------------------------------
// Note type basics.
// ---------------------------------------------------------------------------

impl Default for Notetype {
    /// An empty, transient note type; the caller adds fields and templates
    /// before validation.
    fn default() -> (r: Notetype)
        ensures
            r@.id == NotetypeId(0),
            r@.name.len() == 0,
            r@.mtime_secs == TimestampSecs(0),
            r@.usn == Usn(0),
            r@.fields.len() == 0,
            r@.templates.len() == 0,
            r@.config.kind == NotetypeKind::Standard,
            r@.config.sort_field_idx == 0,
            r@.config.reqs.len() == 0,
            r@.config.target_deck_id == 0,
    {
        let r = Notetype {
            id: NotetypeId(0),
            name: String::new(),
            mtime_secs: TimestampSecs(0),
            usn: Usn(0),
            fields: Vec::new(),
            templates: Vec::new(),
            config: NotetypeConfig {
                kind: NotetypeKind::Standard,
                sort_field_idx: 0,
                reqs: Vec::new(),
                target_deck_id: 0,
            },
        };
        assert(r@.fields =~= Seq::<FieldV>::empty());
        assert(r@.templates =~= Seq::<TemplateV>::empty());
        assert(r@.config.reqs =~= Seq::<ReqV>::empty());
        r
    }
}

impl Notetype {
    /// The template for the given card ordinal: a cloze schema always serves
    /// cards from its only template; a standard one from the template at the
    /// card's own ordinal.
    pub fn get_template(&self, card_ord: u16) -> (r: Result<&CardTemplate, AnkiError>)
        ensures
            match r {
                Ok(t) => if self@.config.kind is Cloze {
                    self@.templates.len() > 0 && t@ == self@.templates[0]
                } else {
                    (card_ord as int) < self@.templates.len() && t@ == self@.templates[
                        card_ord as int
                    ]
                },
                Err(e) => e is NotFound && (if self@.config.kind is Cloze {
                    self@.templates.len() == 0
                } else {
                    (card_ord as int) >= self@.templates.len()
                }),
            },
    {
        let idx: usize = if self.is_cloze() {
            0
        } else {
            card_ord as usize
        };
        if idx < self.templates.len() {
            Ok(&self.templates[idx])
        } else {
            Err(AnkiError::NotFound)
        }
    }

    /// Stamps the modification time with the current clock and records the
    /// given update sequence number.
    pub fn set_modified(&mut self, usn: Usn)
        ensures
            final(self)@.usn == usn,
            final(self)@.id == old(self)@.id,
            final(self)@.name == old(self)@.name,
            final(self)@.fields == old(self)@.fields,
            final(self)@.templates == old(self)@.templates,
            final(self)@.config == old(self)@.config,
    {
        self.mtime_secs = TimestampSecs(now_secs());
        self.usn = usn;
    }

    /// Appends a newly added field of the given name.
    pub fn add_field(&mut self, name: &str)
        ensures
            final(self)@.fields == old(self)@.fields.push(FieldV { ord: None, name: name@ }),
            final(self)@.id == old(self)@.id,
            final(self)@.name == old(self)@.name,
            final(self)@.mtime_secs == old(self)@.mtime_secs,
            final(self)@.usn == old(self)@.usn,
            final(self)@.templates == old(self)@.templates,
            final(self)@.config == old(self)@.config,
    {
        let ghost before = self@.fields;
        self.fields.push(NoteField::new(name));
        assert(self@.fields =~= before.push(FieldV { ord: None, name: name@ }));
    }

    /// Appends a new template built from its name and format strings.
    pub fn add_template(&mut self, name: &str, qfmt: &str, afmt: &str)
        ensures
            final(self)@.templates == old(self)@.templates.push(
                TemplateV { ord: None, name: name@, q_format: qfmt@, a_format: afmt@ },
            ),
            final(self)@.id == old(self)@.id,
            final(self)@.name == old(self)@.name,
            final(self)@.mtime_secs == old(self)@.mtime_secs,
            final(self)@.usn == old(self)@.usn,
            final(self)@.fields == old(self)@.fields,
            final(self)@.config == old(self)@.config,
    {
        let ghost before = self@.templates;
        self.templates.push(CardTemplate::new(name, qfmt, afmt));
        assert(self@.templates =~= before.push(
            TemplateV { ord: None, name: name@, q_format: qfmt@, a_format: afmt@ },
        ));
    }

    /// A new, empty note of this type: one empty text slot per field.
    pub fn new_note(&self) -> (r: Note)
        ensures
            r.notetype_id == self@.id,
            r.fields@.len() == self@.fields.len(),
            forall|i: int| 0 <= i < r.fields@.len() ==> (#[trigger] r.fields@[i])@.len() == 0,
    {
        let mut slots: Vec<String> = Vec::new();
        let mut i: usize = 0;
        while i < self.fields.len()
            invariant
                i <= self.fields.len(),
                slots@.len() == i,
                forall|j: int| 0 <= j < i ==> (#[trigger] slots@[j])@.len() == 0,
            decreases self.fields.len() - i,
        {
            slots.push(String::new());
            i = i + 1;
        }
        Note { notetype_id: self.id, fields: slots }
    }

    /// The deck new cards of this type are filed into.
    pub fn target_deck_id(&self) -> (r: DeckId)
        ensures
            r == DeckId(self@.config.target_deck_id),
    {
        DeckId(self.config.target_deck_id)
    }

    /// The ordinal of the first field of the given name, compared
    /// case-insensitively.
    pub fn get_field_ord(&self, field_name: &str) -> (r: Option<usize>)
        ensures
            match r {
                Some(i) => i < self@.fields.len() && fold_of(self@.fields[i as int].name)
                    == fold_of(field_name@) && (forall|j: int|
                    0 <= j < i ==> fold_of(#[trigger] self@.fields[j].name) != fold_of(
                        field_name@,
                    )),
                None => forall|j: int|
                    0 <= j < self@.fields.len() ==> fold_of(#[trigger] self@.fields[j].name)
                        != fold_of(field_name@),
            },
    {
        let mut i: usize = 0;
        while i < self.fields.len()
            invariant
                i <= self.fields.len(),
                forall|j: int|
                    0 <= j < i ==> fold_of(#[trigger] self@.fields[j].name) != fold_of(
                        field_name@,
                    ),
            decreases self.fields.len() - i,
        {
            if unicase_eq(self.fields[i].name.as_str(), field_name) {
                return Some(i);
            }
            i = i + 1;
        }
        None
    }

    /// Whether this schema is of the cloze kind.
    pub fn is_cloze(&self) -> (r: bool)
        ensures
            r == (self@.config.kind is Cloze),
    {
        match self.config.kind {
            NotetypeKind::Cloze => true,
            NotetypeKind::Standard => false,
        }
    }
}


// ---------------------------------------------------------------------------
// Schema normalizer.
// ---------------------------------------------------------------------------

fn field_name_collides(out: &Vec<NoteField>, name: &String) -> (r: bool)
    ensures
        r == exists|j: int|
            0 <= j < out@.len() && fold_of((#[trigger] out@[j])@.name) == fold_of(name@),
{
    let mut j: usize = 0;
    while j < out.len()
        invariant
            j <= out.len(),
            forall|q: int|
                0 <= q < j ==> fold_of((#[trigger] out@[q])@.name) != fold_of(name@),
        decreases out.len() - j,
    {
        if unicase_eq(out[j].name.as_str(), name.as_str()) {
            return true;
        }
        j = j + 1;
    }
    false
}

fn template_name_collides(out: &Vec<CardTemplate>, name: &String) -> (r: bool)
    ensures
        r == exists|j: int|
            0 <= j < out@.len() && fold_of((#[trigger] out@[j])@.name) == fold_of(name@),
{
    let mut j: usize = 0;
    while j < out.len()
        invariant
            j <= out.len(),
            forall|q: int|
                0 <= q < j ==> fold_of((#[trigger] out@[q])@.name) != fold_of(name@),
        decreases out.len() - j,
    {
        if unicase_eq(out[j].name.as_str(), name.as_str()) {
            return true;
        }
        j = j + 1;
    }
    false
}


/// How many of the templates' names fold to at least `len_bound` characters.
spec fn count_tfold_ge(ts: Seq<CardTemplate>, len_bound: int) -> nat
    decreases ts.len()
{
    if ts.len() == 0 {
        0
    } else {
        count_tfold_ge(ts.drop_last(), len_bound) + if fold_of(ts.last()@.name).len()
            >= len_bound {
            1nat
        } else {
            0nat
        }
    }
}

proof fn lemma_count_tfold_ge_dec(ts: Seq<CardTemplate>, len_bound: int)
    requires
        exists|q: int|
            0 <= q < ts.len() && fold_of((#[trigger] ts[q])@.name).len() == len_bound,
    ensures
        count_tfold_ge(ts, len_bound + 1) < count_tfold_ge(ts, len_bound),
    decreases ts.len(),
{
    let q = choose|q: int|
        0 <= q < ts.len() && fold_of((#[trigger] ts[q])@.name).len() == len_bound;
    if q == ts.len() - 1 {
        lemma_count_tfold_ge_mono(ts.drop_last(), len_bound);
    } else {
        assert(ts.drop_last()[q] == ts[q]);
        lemma_count_tfold_ge_dec(ts.drop_last(), len_bound);
    }
}

proof fn lemma_count_tfold_ge_mono(ts: Seq<CardTemplate>, len_bound: int)
    ensures
        count_tfold_ge(ts, len_bound + 1) <= count_tfold_ge(ts, len_bound),
    decreases ts.len(),
{
    if ts.len() > 0 {
        lemma_count_tfold_ge_mono(ts.drop_last(), len_bound);
    }
}

/// How many of the fields' names fold to at least `len_bound` characters.
spec fn count_ffold_ge(fs: Seq<NoteField>, len_bound: int) -> nat
    decreases fs.len()
{
    if fs.len() == 0 {
        0
    } else {
        count_ffold_ge(fs.drop_last(), len_bound) + if fold_of(fs.last()@.name).len()
            >= len_bound {
            1nat
        } else {
            0nat
        }
    }
}

proof fn lemma_count_ffold_ge_dec(fs: Seq<NoteField>, len_bound: int)
    requires
        exists|q: int|
            0 <= q < fs.len() && fold_of((#[trigger] fs[q])@.name).len() == len_bound,
    ensures
        count_ffold_ge(fs, len_bound + 1) < count_ffold_ge(fs, len_bound),
    decreases fs.len(),
{
    let q = choose|q: int|
        0 <= q < fs.len() && fold_of((#[trigger] fs[q])@.name).len() == len_bound;
    if q == fs.len() - 1 {
        lemma_count_ffold_ge_mono(fs.drop_last(), len_bound);
    } else {
        assert(fs.drop_last()[q] == fs[q]);
        lemma_count_ffold_ge_dec(fs.drop_last(), len_bound);
    }
}

proof fn lemma_count_ffold_ge_mono(fs: Seq<NoteField>, len_bound: int)
    ensures
        count_ffold_ge(fs, len_bound + 1) <= count_ffold_ge(fs, len_bound),
    decreases fs.len(),
{
    if fs.len() > 0 {
        lemma_count_ffold_ge_mono(fs.drop_last(), len_bound);
    }
}

impl Notetype {
    /// Puts the schema name and every field and template name into canonical
    /// composed form.
    pub fn normalize_names(&mut self)
        ensures
            final(self)@.id == old(self)@.id,
            final(self)@.mtime_secs == old(self)@.mtime_secs,
            final(self)@.usn == old(self)@.usn,
            final(self)@.config == old(self)@.config,
            final(self)@.name == nfc_of(old(self)@.name),
            (final(self)@.name.len() == 0) == (old(self)@.name.len() == 0),
            nfc_of(final(self)@.name) == final(self)@.name,
            final(self)@.fields.len() == old(self)@.fields.len(),
            forall|i: int|
                0 <= i < old(self)@.fields.len() ==> (#[trigger] final(self)@.fields[i]).ord
                    == old(self)@.fields[i].ord && final(self)@.fields[i].name == nfc_of(
                    old(self)@.fields[i].name,
                ) && nfc_of(final(self)@.fields[i].name) == final(self)@.fields[i].name,
            final(self)@.templates.len() == old(self)@.templates.len(),
            forall|i: int|
                0 <= i < old(self)@.templates.len() ==> (#[trigger] final(self)@.templates[
                    i
                ]).ord == old(self)@.templates[i].ord && final(self)@.templates[i].name == nfc_of(
                    old(self)@.templates[i].name,
                ) && final(self)@.templates[i].q_format == old(self)@.templates[i].q_format
                    && final(self)@.templates[i].a_format == old(self)@.templates[i].a_format,
    {
        self.name = normalize_nfc(self.name.as_str());
        let mut new_fields: Vec<NoteField> = Vec::new();
        let mut i: usize = 0;
        while i < self.fields.len()
            invariant
                i <= self.fields.len(),
                new_fields@.len() == i,
                forall|j: int|
                    0 <= j < i ==> (#[trigger] new_fields@[j])@.ord == self@.fields[j].ord
                        && new_fields@[j]@.name == nfc_of(self@.fields[j].name)
                        && nfc_of(new_fields@[j]@.name) == new_fields@[j]@.name,
            decreases self.fields.len() - i,
        {
            let f = &self.fields[i];
            new_fields.push(NoteField { ord: f.ord, name: normalize_nfc(f.name.as_str()) });
            i = i + 1;
        }
        self.fields = new_fields;
        let mut new_templates: Vec<CardTemplate> = Vec::new();
        let mut k: usize = 0;
        while k < self.templates.len()
            invariant
                k <= self.templates.len(),
                new_templates@.len() == k,
                forall|j: int|
                    0 <= j < k ==> (#[trigger] new_templates@[j])@.ord == self@.templates[j].ord
                        && new_templates@[j]@.name == nfc_of(self@.templates[j].name)
                        && nfc_of(new_templates@[j]@.name) == new_templates@[j]@.name
                        && new_templates@[j]@.q_format == self@.templates[j].q_format
                        && new_templates@[j]@.a_format == self@.templates[j].a_format,
            decreases self.templates.len() - k,
        {
            let tpl = &self.templates[k];
            new_templates.push(
                CardTemplate {
                    ord: tpl.ord,
                    name: normalize_nfc(tpl.name.as_str()),
                    config: CardTemplateConfig {
                        q_format: tpl.config.q_format.clone(),
                        a_format: tpl.config.a_format.clone(),
                    },
                },
            );
            k = k + 1;
        }
        self.templates = new_templates;
    }

    /// Sanitizes every field name; fails when one sanitizes away to nothing,
    /// leaving the schema untouched.
    pub fn fix_field_names(&mut self) -> (r: Result<(), AnkiError>)
        ensures
            r is Err <==> (exists|i: int|
                0 <= i < old(self)@.fields.len() && field_fix(
                    (#[trigger] old(self)@.fields[i]).name,
                ).len() == 0),
            r matches Err(e) ==> e matches AnkiError::InvalidInput(m) && m@
                == "empty field name"@ && final(self)@ == old(self)@,
            r is Ok ==> ({
                &&& final(self)@.id == old(self)@.id
                &&& final(self)@.name == old(self)@.name
                &&& final(self)@.mtime_secs == old(self)@.mtime_secs
                &&& final(self)@.usn == old(self)@.usn
                &&& final(self)@.config == old(self)@.config
                &&& final(self)@.templates == old(self)@.templates
                &&& final(self)@.fields.len() == old(self)@.fields.len()
                &&& forall|i: int|
                    0 <= i < old(self)@.fields.len() ==> (#[trigger] final(self)@.fields[
                        i
                    ]).ord == old(self)@.fields[i].ord && final(self)@.fields[i].name == field_fix(
                        old(self)@.fields[i].name,
                    ) && final(self)@.fields[i].name.len() > 0
            }),
    {
        let mut new_fields: Vec<NoteField> = Vec::new();
        let mut i: usize = 0;
        while i < self.fields.len()
            invariant
                i <= self.fields.len(),
                new_fields@.len() == i,
                forall|j: int|
                    0 <= j < i ==> (#[trigger] new_fields@[j])@.ord == self@.fields[j].ord
                        && new_fields@[j]@.name == field_fix(self@.fields[j].name)
                        && new_fields@[j]@.name.len() > 0,
            decreases self.fields.len() - i,
        {
            let f = &self.fields[i];
            let fixed = field_fix_exec(f.name.as_str());
            if fixed.is_empty() {
                assert(field_fix(old(self)@.fields[i as int].name).len() == 0);
                return Err(AnkiError::invalid_input("empty field name"));
            }
            new_fields.push(NoteField { ord: f.ord, name: fixed });
            i = i + 1;
        }
        proof {
            assert forall|q: int|
                0 <= q < old(self)@.fields.len() implies field_fix(
                (#[trigger] old(self)@.fields[q]).name,
            ).len() != 0 by {
                assert(new_fields@[q]@.name == field_fix(self@.fields[q].name));
                assert(new_fields@[q]@.name.len() > 0);
            }
        }
        self.fields = new_fields;
        Ok(())
    }

    /// Sanitizes every template name; fails when one sanitizes away to
    /// nothing, leaving the schema untouched.
    pub fn fix_template_names(&mut self) -> (r: Result<(), AnkiError>)
        ensures
            r is Err <==> (exists|i: int|
                0 <= i < old(self)@.templates.len() && template_fix(
                    (#[trigger] old(self)@.templates[i]).name,
                ).len() == 0),
            r matches Err(e) ==> e matches AnkiError::InvalidInput(m) && m@
                == "empty template name"@ && final(self)@ == old(self)@,
            r is Ok ==> ({
                &&& final(self)@.id == old(self)@.id
                &&& final(self)@.name == old(self)@.name
                &&& final(self)@.mtime_secs == old(self)@.mtime_secs
                &&& final(self)@.usn == old(self)@.usn
                &&& final(self)@.config == old(self)@.config
                &&& final(self)@.fields == old(self)@.fields
                &&& final(self)@.templates.len() == old(self)@.templates.len()
                &&& forall|i: int|
                    0 <= i < old(self)@.templates.len() ==> (#[trigger] final(self)@.templates[
                        i
                    ]).ord == old(self)@.templates[i].ord && final(self)@.templates[i].name
                        == template_fix(old(self)@.templates[i].name) && final(self)@.templates[
                        i
                    ].name.len() > 0 && final(self)@.templates[i].q_format == old(self)@.templates[i].q_format && final(self)@.templates[i].a_format == old(self)@.templates[i].a_format
            }),
    {
        let mut new_templates: Vec<CardTemplate> = Vec::new();
        let mut i: usize = 0;
        while i < self.templates.len()
            invariant
                i <= self.templates.len(),
                new_templates@.len() == i,
                forall|j: int|
                    0 <= j < i ==> (#[trigger] new_templates@[j])@.ord == self@.templates[j].ord
                        && new_templates@[j]@.name == template_fix(self@.templates[j].name)
                        && new_templates@[j]@.name.len() > 0 && new_templates@[j]@.q_format
                        == self@.templates[j].q_format && new_templates@[j]@.a_format
                        == self@.templates[j].a_format,
            decreases self.templates.len() - i,
        {
            let tpl = &self.templates[i];
            let fixed = strip_quotes_exec(tpl.name.as_str());
            if fixed.is_empty() {
                assert(template_fix(old(self)@.templates[i as int].name).len() == 0);
                return Err(AnkiError::invalid_input("empty template name"));
            }
            new_templates.push(
                CardTemplate {
                    ord: tpl.ord,
                    name: fixed,
                    config: CardTemplateConfig {
                        q_format: tpl.config.q_format.clone(),
                        a_format: tpl.config.a_format.clone(),
                    },
                },
            );
            i = i + 1;
        }
        proof {
            assert forall|q: int|
                0 <= q < old(self)@.templates.len() implies template_fix(
                (#[trigger] old(self)@.templates[q]).name,
            ).len() != 0 by {
                assert(new_templates@[q]@.name == template_fix(self@.templates[q].name));
                assert(new_templates@[q]@.name.len() > 0);
            }
        }
        self.templates = new_templates;
        Ok(())
    }

    /// Repairs name collisions: walking templates, then fields, appends a
    /// collision marker to a later name until it no longer collides,
    /// case-insensitively, with any earlier one. Names that already stand
    /// pairwise distinct are left exactly as they are.
    pub fn ensure_names_unique(&mut self)
        ensures
            final(self)@.id == old(self)@.id,
            final(self)@.name == old(self)@.name,
            final(self)@.mtime_secs == old(self)@.mtime_secs,
            final(self)@.usn == old(self)@.usn,
            final(self)@.config == old(self)@.config,
            final(self)@.fields.len() == old(self)@.fields.len(),
            final(self)@.templates.len() == old(self)@.templates.len(),
            forall|i: int|
                0 <= i < old(self)@.fields.len() ==> (#[trigger] final(self)@.fields[i]).ord
                    == old(self)@.fields[i].ord && name_extended(
                    old(self)@.fields[i].name,
                    final(self)@.fields[i].name,
                ),
            forall|i: int|
                0 <= i < old(self)@.templates.len() ==> (#[trigger] final(self)@.templates[
                    i
                ]).ord == old(self)@.templates[i].ord && name_extended(
                    old(self)@.templates[i].name,
                    final(self)@.templates[i].name,
                ) && final(self)@.templates[i].q_format == old(self)@.templates[i].q_format
                    && final(self)@.templates[i].a_format == old(self)@.templates[i].a_format,
            folds_distinct(field_names(final(self)@.fields)),
            folds_distinct(template_names(final(self)@.templates)),
            folds_distinct(template_names(old(self)@.templates)) ==> (forall|i: int|
                0 <= i < old(self)@.templates.len() ==> (#[trigger] final(self)@.templates[
                    i
                ]).name == old(self)@.templates[i].name),
            folds_distinct(field_names(old(self)@.fields)) ==> (forall|i: int|
                0 <= i < old(self)@.fields.len() ==> (#[trigger] final(self)@.fields[i]).name
                    == old(self)@.fields[i].name),
            markers_minimal_t(
                final(self).templates@,
                old(self)@.templates,
                old(self)@.templates.len() as int,
            ),
            markers_minimal_f(
                final(self).fields@,
                old(self)@.fields,
                old(self)@.fields.len() as int,
            ),
    {
        let ghost old_t = self@.templates;
        let mut new_templates: Vec<CardTemplate> = Vec::new();
        let mut i: usize = 0;
        while i < self.templates.len()
            invariant
                i <= self.templates.len(),
                old_t == self@.templates,
                old_t.len() == self.templates@.len(),
                new_templates@.len() == i,
                forall|j: int|
                    0 <= j < i ==> (#[trigger] new_templates@[j])@.ord == old_t[j].ord
                        && name_extended(old_t[j].name, new_templates@[j]@.name)
                        && new_templates@[j]@.q_format == old_t[j].q_format
                        && new_templates@[j]@.a_format == old_t[j].a_format,
                forall|a: int, b: int|
                    0 <= a < b < i ==> fold_of((#[trigger] new_templates@[a])@.name) != fold_of(
                        (#[trigger] new_templates@[b])@.name,
                    ),
                folds_distinct(template_names(old_t)) ==> (forall|j: int|
                    0 <= j < i ==> (#[trigger] new_templates@[j])@.name == old_t[j].name),
                markers_minimal_t(new_templates@, old_t, i as int),
            decreases self.templates.len() - i,
        {
            let tpl = &self.templates[i];
            let mut name = tpl.name.clone();
            proof {
                assert(old_t[i as int] == self.templates@[i as int]@);
                assert(name@ == old_t[i as int].name);
                assert(name@.subrange(0, name@.len() as int) =~= name@);
            }
            let mut collide = template_name_collides(&new_templates, &name);
            while collide
                invariant
                    i < old_t.len(),
                    old_t.len() == self.templates@.len(),
                    new_templates@.len() == i,
                    name_extended(old_t[i as int].name, name@),
                    collide == exists|j: int|
                        0 <= j < i && fold_of((#[trigger] new_templates@[j])@.name) == fold_of(
                            name@,
                        ),
                    folds_distinct(template_names(old_t)) ==> (forall|j: int|
                        0 <= j < i ==> (#[trigger] new_templates@[j])@.name == old_t[j].name),
                    (folds_distinct(template_names(old_t)) && (forall|j: int|
                        0 <= j < i ==> (#[trigger] new_templates@[j])@.name == old_t[j].name))
                        ==> name@ == old_t[i as int].name,
                    shorter_collide_t(new_templates@, old_t[i as int].name, name@, i as int),
                decreases count_tfold_ge(new_templates@, fold_of(name@).len() as int),
            {
                let ghost name0 = name@;
                proof {
                    if folds_distinct(template_names(old_t)) {
                        let q = choose|q: int|
                            0 <= q < i && fold_of((#[trigger] new_templates@[q])@.name)
                                == fold_of(name0);
                        assert(template_names(old_t)[q] == old_t[q].name);
                        assert(template_names(old_t)[i as int] == old_t[i as int].name);
                    }
                }
                // the fold of the grown name is one character longer, so one
                // more earlier name drops out of the possible collisions
                let _fold = crate::text::folded_case(name.as_str());
                name.push('+');
                proof {
                    let j = choose|j: int|
                        0 <= j < new_templates@.len() && fold_of(
                            (#[trigger] new_templates@[j])@.name,
                        ) == fold_of(name0);
                    lemma_count_tfold_ge_dec(new_templates@, fold_of(name0).len() as int);
                    assert(fold_of(name@) == fold_of(name0).push('+'));
                    assert(fold_of(name@).len() == fold_of(name0).len() + 1);
                    let base = old_t[i as int].name;
                    assert(name@.subrange(0, base.len() as int) =~= name0.subrange(
                        0,
                        base.len() as int,
                    ));
                    let oldd = name0.len() - base.len();
                    assert(name0 =~= plussed(base, oldd));
                    assert forall|k2: int|
                        #![trigger plussed(base, k2)]
                        0 <= k2 < name@.len() - base.len() implies collides_with_earlier_t(
                        new_templates@,
                        i as int,
                        plussed(base, k2),
                    ) by {
                        if k2 < oldd {
                            assert(collides_with_earlier_t(
                                new_templates@,
                                i as int,
                                plussed(base, k2),
                            ));
                        } else {
                            assert(k2 == oldd);
                            assert(plussed(base, k2) == name0);
                            assert(0 <= j < i && fold_of((new_templates@[j])@.name) == fold_of(
                                plussed(base, k2),
                            ));
                        }
                    }
                    assert(shorter_collide_t(new_templates@, base, name@, i as int));
                }
                collide = template_name_collides(&new_templates, &name);
            }
            let ghost final_name = name@;
            let ghost before_push = new_templates@;
            proof {
                assert(shorter_collide_t(before_push, old_t[i as int].name, final_name, i as int));
                assert(markers_minimal_t(before_push, old_t, i as int));
            }
            new_templates.push(
                CardTemplate {
                    ord: tpl.ord,
                    name,
                    config: CardTemplateConfig {
                        q_format: tpl.config.q_format.clone(),
                        a_format: tpl.config.a_format.clone(),
                    },
                },
            );
            proof {
                assert(forall|j: int|
                    0 <= j < i ==> (#[trigger] new_templates@[j]) == before_push[j]);
                assert(new_templates@[i as int]@.name == final_name);
                lemma_markers_step_t(
                    before_push,
                    new_templates@[i as int],
                    old_t,
                    i as int,
                );
                assert(before_push.push(new_templates@[i as int]) =~= new_templates@);
                assert(markers_minimal_t(new_templates@, old_t, i + 1));
                if folds_distinct(template_names(old_t)) {
                    assert forall|j: int|
                        0 <= j < i + 1 implies (#[trigger] new_templates@[j])@.name == old_t[
                        j
                    ].name by {
                        if j < i {
                        } else {
                            assert(!(exists|q: int|
                                0 <= q < i && fold_of((#[trigger] new_templates@[q])@.name)
                                    == fold_of(old_t[i as int].name))) by {
                                if exists|q: int|
                                    0 <= q < i && fold_of((#[trigger] new_templates@[q])@.name)
                                        == fold_of(old_t[i as int].name) {
                                    let q = choose|q: int|
                                        0 <= q < i && fold_of(
                                            (#[trigger] new_templates@[q])@.name,
                                        ) == fold_of(old_t[i as int].name);
                                    assert(template_names(old_t)[q] == old_t[q].name);
                                    assert(template_names(old_t)[i as int] == old_t[
                                        i as int
                                    ].name);
                                    assert(fold_of(old_t[q].name) != fold_of(
                                        old_t[i as int].name,
                                    ));
                                }
                            }
                        }
                    }
                }
            }
            i = i + 1;
        }
        let ghost tdone = new_templates@;
        self.templates = new_templates;

        let ghost old_f = self@.fields;
        let mut new_fields: Vec<NoteField> = Vec::new();
        let mut k: usize = 0;
        while k < self.fields.len()
            invariant
                k <= self.fields.len(),
                old_f == self@.fields,
                old_f.len() == self.fields@.len(),
                new_fields@.len() == k,
                forall|j: int|
                    0 <= j < k ==> (#[trigger] new_fields@[j])@.ord == old_f[j].ord
                        && name_extended(old_f[j].name, new_fields@[j]@.name),
                forall|a: int, b: int|
                    0 <= a < b < k ==> fold_of((#[trigger] new_fields@[a])@.name) != fold_of(
                        (#[trigger] new_fields@[b])@.name,
                    ),
                folds_distinct(field_names(old_f)) ==> (forall|j: int|
                    0 <= j < k ==> (#[trigger] new_fields@[j])@.name == old_f[j].name),
                markers_minimal_f(new_fields@, old_f, k as int),
            decreases self.fields.len() - k,
        {
            let fld = &self.fields[k];
            let mut name = fld.name.clone();
            proof {
                assert(old_f[k as int] == self.fields@[k as int]@);
                assert(name@ == old_f[k as int].name);
                assert(name@.subrange(0, name@.len() as int) =~= name@);
            }
            let mut collide = field_name_collides(&new_fields, &name);
            while collide
                invariant
                    k < old_f.len(),
                    old_f.len() == self.fields@.len(),
                    new_fields@.len() == k,
                    name_extended(old_f[k as int].name, name@),
                    collide == exists|j: int|
                        0 <= j < k && fold_of((#[trigger] new_fields@[j])@.name) == fold_of(
                            name@,
                        ),
                    folds_distinct(field_names(old_f)) ==> (forall|j: int|
                        0 <= j < k ==> (#[trigger] new_fields@[j])@.name == old_f[j].name),
                    (folds_distinct(field_names(old_f)) && (forall|j: int|
                        0 <= j < k ==> (#[trigger] new_fields@[j])@.name == old_f[j].name))
                        ==> name@ == old_f[k as int].name,
                    shorter_collide_f(new_fields@, old_f[k as int].name, name@, k as int),
                decreases count_ffold_ge(new_fields@, fold_of(name@).len() as int),
            {
                let ghost name0 = name@;
                proof {
                    if folds_distinct(field_names(old_f)) {
                        let q = choose|q: int|
                            0 <= q < k && fold_of((#[trigger] new_fields@[q])@.name) == fold_of(
                                name0,
                            );
                        assert(field_names(old_f)[q] == old_f[q].name);
                        assert(field_names(old_f)[k as int] == old_f[k as int].name);
                    }
                }
                // the fold of the grown name is one character longer, so one
                // more earlier name drops out of the possible collisions
                let _fold = crate::text::folded_case(name.as_str());
                name.push('+');
                proof {
                    let j = choose|j: int|
                        0 <= j < new_fields@.len() && fold_of(
                            (#[trigger] new_fields@[j])@.name,
                        ) == fold_of(name0);
                    lemma_count_ffold_ge_dec(new_fields@, fold_of(name0).len() as int);
                    assert(fold_of(name@) == fold_of(name0).push('+'));
                    assert(fold_of(name@).len() == fold_of(name0).len() + 1);
                    let base = old_f[k as int].name;
                    assert(name@.subrange(0, base.len() as int) =~= name0.subrange(
                        0,
                        base.len() as int,
                    ));
                    let oldd = name0.len() - base.len();
                    assert(name0 =~= plussed(base, oldd));
                    assert forall|k2: int|
                        #![trigger plussed(base, k2)]
                        0 <= k2 < name@.len() - base.len() implies collides_with_earlier_f(
                        new_fields@,
                        k as int,
                        plussed(base, k2),
                    ) by {
                        if k2 < oldd {
                            assert(collides_with_earlier_f(
                                new_fields@,
                                k as int,
                                plussed(base, k2),
                            ));
                        } else {
                            assert(k2 == oldd);
                            assert(plussed(base, k2) == name0);
                            assert(0 <= j < k && fold_of((new_fields@[j])@.name) == fold_of(
                                plussed(base, k2),
                            ));
                        }
                    }
                    assert(shorter_collide_f(new_fields@, base, name@, k as int));
                }
                collide = field_name_collides(&new_fields, &name);
            }
            let ghost final_fname = name@;
            let ghost fbefore_push = new_fields@;
            proof {
                assert(shorter_collide_f(fbefore_push, old_f[k as int].name, final_fname, k as int));
                assert(markers_minimal_f(fbefore_push, old_f, k as int));
            }
            new_fields.push(NoteField { ord: fld.ord, name });
            proof {
                assert(forall|j: int|
                    0 <= j < k ==> (#[trigger] new_fields@[j]) == fbefore_push[j]);
                assert(new_fields@[k as int]@.name == final_fname);
                lemma_markers_step_f(
                    fbefore_push,
                    new_fields@[k as int],
                    old_f,
                    k as int,
                );
                assert(fbefore_push.push(new_fields@[k as int]) =~= new_fields@);
                assert(markers_minimal_f(new_fields@, old_f, k + 1));
                if folds_distinct(field_names(old_f)) {
                    assert forall|j: int|
                        0 <= j < k + 1 implies (#[trigger] new_fields@[j])@.name == old_f[
                        j
                    ].name by {
                        if j < k {
                        } else {
                            assert(!(exists|q: int|
                                0 <= q < k && fold_of((#[trigger] new_fields@[q])@.name)
                                    == fold_of(old_f[k as int].name))) by {
                                if exists|q: int|
                                    0 <= q < k && fold_of((#[trigger] new_fields@[q])@.name)
                                        == fold_of(old_f[k as int].name) {
                                    let q = choose|q: int|
                                        0 <= q < k && fold_of((#[trigger] new_fields@[q])@.name)
                                            == fold_of(old_f[k as int].name);
                                    assert(field_names(old_f)[q] == old_f[q].name);
                                    assert(field_names(old_f)[k as int] == old_f[k as int].name);
                                    assert(fold_of(old_f[q].name) != fold_of(
                                        old_f[k as int].name,
                                    ));
                                }
                            }
                        }
                    }
                }
            }
            k = k + 1;
        }
        let ghost fdone = new_fields@;
        self.fields = new_fields;
        proof {
            assert(self.templates@ == tdone);
            assert(self.fields@ == fdone);
            assert forall|a: int, b: int|
                0 <= a < b < template_names(self@.templates).len() implies fold_of(
                template_names(self@.templates)[a],
            ) != fold_of(template_names(self@.templates)[b]) by {
                assert(template_names(self@.templates)[a] == self@.templates[a].name);
                assert(template_names(self@.templates)[b] == self@.templates[b].name);
            }
            assert forall|a: int, b: int|
                0 <= a < b < field_names(self@.fields).len() implies fold_of(
                field_names(self@.fields)[a],
            ) != fold_of(field_names(self@.fields)[b]) by {
                assert(field_names(self@.fields)[a] == self@.fields[a].name);
                assert(field_names(self@.fields)[b] == self@.fields[b].name);
            }
            assert(markers_minimal_t(tdone, old_t, old_t.len() as int));
            assert(self.templates@ == tdone && old_t == old(self)@.templates);
            assert(markers_minimal_t(
                self.templates@,
                old(self)@.templates,
                old(self)@.templates.len() as int,
            ));
            assert(markers_minimal_f(fdone, old_f, old_f.len() as int));
            assert(self.fields@ == fdone && old_f == old(self)@.fields);
            assert(markers_minimal_f(
                self.fields@,
                old(self)@.fields,
                old(self)@.fields.len() as int,
            ));
        }
    }

    /// Rewrites the sort index to the new position of the field that carried
    /// it as prior ordinal, or clamps it into bounds when that field is gone.
    pub fn reposition_sort_idx(&mut self)
        requires
            old(self)@.fields.len() > 0,
            old(self)@.fields.len() <= 0xFFFFFFFF,
        ensures
            final(self)@.id == old(self)@.id,
            final(self)@.name == old(self)@.name,
            final(self)@.mtime_secs == old(self)@.mtime_secs,
            final(self)@.usn == old(self)@.usn,
            final(self)@.fields == old(self)@.fields,
            final(self)@.templates == old(self)@.templates,
            final(self)@.config.kind == old(self)@.config.kind,
            final(self)@.config.reqs == old(self)@.config.reqs,
            final(self)@.config.target_deck_id == old(self)@.config.target_deck_id,
            sort_repositioned(
                final(self)@.fields,
                old(self)@.config.sort_field_idx,
                final(self)@.config.sort_field_idx,
            ),
    {
        let prev = self.config.sort_field_idx;
        let mut i: usize = 0;
        let mut found = false;
        while !found && i < self.fields.len()
            invariant
                i <= self.fields.len(),
                forall|j: int| 0 <= j < i ==> (#[trigger] self@.fields[j].ord) != Some(prev),
                found ==> i < self@.fields.len() && self@.fields[i as int].ord == Some(prev),
            decreases self.fields.len() - i, (if found { 0int } else { 1int }),
        {
            let matched = match self.fields[i].ord {
                Some(o) => o == prev,
                None => false,
            };
            if matched {
                found = true;
            } else {
                i = i + 1;
            }
        }
        if found {
            self.config.sort_field_idx = i as u32;
        } else {
            let len = self.fields.len();
            if (prev as usize) < len {
                self.config.sort_field_idx = prev;
            } else {
                self.config.sort_field_idx = (len - 1) as u32;
            }
        }
    }
}


// ---------------------------------------------------------------------------
// Requirement analysis and rename propagation.
// ---------------------------------------------------------------------------

fn ords_u32(v: &Vec<u16>) -> (r: Vec<u32>)
    ensures
        r@ == v@.map_values(|x: u16| x as u32),
{
    let mut out: Vec<u32> = Vec::new();
    let mut i: usize = 0;
    while i < v.len()
        invariant
            i <= v.len(),
            out@.len() == i,
            forall|j: int| 0 <= j < i ==> #[trigger] out@[j] == v@[j] as u32,
        decreases v.len() - i,
    {
        out.push(v[i] as u32);
        i = i + 1;
    }
    assert(out@ =~= v@.map_values(|x: u16| x as u32));
    out
}

proof fn lemma_renames_set_absent(m: RenamesV, k: Seq<char>, v: Option<Seq<char>>)
    requires
        forall|j: int| 0 <= j < m.len() ==> (#[trigger] m[j]).0 != k,
    ensures
        renames_set(m, k, v) == m.push((k, v)),
    decreases m.len(),
{
    if m.len() == 0 {
        assert(renames_set(m, k, v) =~= m.push((k, v)));
    } else {
        assert(forall|j: int|
            0 <= j < m.drop_first().len() ==> (#[trigger] m.drop_first()[j]).0 != k);
        lemma_renames_set_absent(m.drop_first(), k, v);
        assert(seq![m[0]] + m.drop_first().push((k, v)) =~= m.push((k, v)));
    }
}

proof fn lemma_renames_set_found(m: RenamesV, k: Seq<char>, v: Option<Seq<char>>, pos: int)
    requires
        0 <= pos < m.len(),
        m[pos].0 == k,
        forall|j: int| 0 <= j < pos ==> (#[trigger] m[j]).0 != k,
    ensures
        renames_set(m, k, v) == m.update(pos, (k, v)),
    decreases m.len(),
{
    if m[0].0 == k {
        assert(pos == 0);
        assert(seq![(k, v)] + m.drop_first() =~= m.update(0, (k, v)));
    } else {
        assert(forall|j: int|
            0 <= j < pos - 1 ==> (#[trigger] m.drop_first()[j]).0 != k);
        lemma_renames_set_found(m.drop_first(), k, v, pos - 1);
        assert(seq![m[0]] + m.drop_first().update(pos - 1, (k, v)) =~= m.update(pos, (k, v)));
    }
}

fn renames_set_exec(m: &mut FieldRenames, k: &String, v: Option<String>)
    ensures
        final(m)@ == renames_set(old(m)@, k@, crate::template::opt_name_view(v)),
{
    let ghost vv = crate::template::opt_name_view(v);
    let mut p: usize = 0;
    while p < m.entries.len()
        invariant
            p <= m.entries.len(),
            m@ == old(m)@,
            crate::template::opt_name_view(v) == vv,
            forall|j: int| 0 <= j < p ==> (#[trigger] m@[j]).0 != k@,
        decreases m.entries.len() - p,
    {
        if m.entries[p].0.eq(k) {
            assert(m@[p as int].0 == k@);
            proof {
                lemma_renames_set_found(m@, k@, vv, p as int);
            }
            let ghost before = m@;
            let ghost ebefore = m.entries@;
            let _old_entry = m.entries.remove(p);
            let kc = k.clone();
            assert(kc@ == k@);
            let entry = (kc, v);
            assert(entry.0@ == k@);
            assert(crate::template::opt_name_view(entry.1) == vv);
            m.entries.insert(p, entry);
            proof {
                assert(m.entries@[p as int] == entry);
                assert(m@ =~= before.update(p as int, (k@, vv)));
            }
            return ;
        }
        p = p + 1;
    }
    proof {
        lemma_renames_set_absent(m@, k@, vv);
    }
    let ghost before = m@;
    m.entries.push((k.clone(), v));
    assert(m@ =~= before.push((k@, vv)));
}

impl Notetype {
    /// The field names, in ordinal order.
    pub fn field_names_vec(&self) -> (r: Vec<String>)
        ensures
            names_of(r@) == field_names(self@.fields),
    {
        let mut out: Vec<String> = Vec::new();
        let mut i: usize = 0;
        while i < self.fields.len()
            invariant
                i <= self.fields.len(),
                out@.len() == i,
                forall|j: int| 0 <= j < i ==> (#[trigger] out@[j])@ == self@.fields[j].name,
            decreases self.fields.len() - i,
        {
            out.push(self.fields[i].name.clone());
            i = i + 1;
        }
        assert(names_of(out@) =~= field_names(self@.fields));
        out
    }

    /// Parses every template's question and answer format.
    pub fn parsed_templates(&self) -> (r: Vec<(Option<ParsedTemplate>, Option<ParsedTemplate>)>)
        ensures
            r@.len() == self@.templates.len(),
            forall|i: int|
                0 <= i < r@.len() ==> parse_rel(self@.templates[i].q_format, (#[trigger] r@[i]).0)
                    && parse_rel(self@.templates[i].a_format, r@[i].1),
    {
        let mut out: Vec<(Option<ParsedTemplate>, Option<ParsedTemplate>)> = Vec::new();
        let mut i: usize = 0;
        while i < self.templates.len()
            invariant
                i <= self.templates.len(),
                out@.len() == i,
                forall|j: int|
                    0 <= j < i ==> parse_rel(self@.templates[j].q_format, (#[trigger] out@[j]).0)
                        && parse_rel(self@.templates[j].a_format, out@[j].1),
            decreases self.templates.len() - i,
        {
            let tpl = &self.templates[i];
            out.push((tpl.parsed_question(), tpl.parsed_answer()));
            i = i + 1;
        }
        out
    }

    /// Derives the per-template card requirements from the parse results,
    /// against this schema's field names.
    pub fn updated_requirements(
        &self,
        parsed: &Vec<(Option<ParsedTemplate>, Option<ParsedTemplate>)>,
    ) -> (r: Vec<CardRequirement>)
        requires
            self@.fields.len() <= 0xFFFF,
            parsed@.len() <= 0xFFFFFFFF,
            forall|i: int|
                0 <= i < parsed@.len() ==> ((#[trigger] parsed@[i]).0 matches Some(pt)
                    ==> balanced(pt@)),
        ensures
            r@.len() == parsed@.len(),
            forall|i: int|
                0 <= i < parsed@.len() ==> (#[trigger] r@[i])@ == spec_card_requirement(
                    field_names(self@.fields),
                    match parsed@[i].0 {
                        Some(pt) => Some(pt@),
                        None => None,
                    },
                    i,
                ),
    {
        let names = self.field_names_vec();
        let mut out: Vec<CardRequirement> = Vec::new();
        let mut i: usize = 0;
        while i < parsed.len()
            invariant
                i <= parsed.len(),
                parsed@.len() <= 0xFFFFFFFF,
                names_of(names@) == field_names(self@.fields),
                names@.len() == self@.fields.len(),
                self@.fields.len() <= 0xFFFF,
                forall|q: int|
                    0 <= q < parsed@.len() ==> ((#[trigger] parsed@[q]).0 matches Some(pt)
                        ==> balanced(pt@)),
                out@.len() == i,
                forall|q: int|
                    0 <= q < i ==> (#[trigger] out@[q])@ == spec_card_requirement(
                        field_names(self@.fields),
                        match parsed@[q].0 {
                            Some(pt) => Some(pt@),
                            None => None,
                        },
                        q,
                    ),
            decreases parsed.len() - i,
        {
            let empty_ords: Vec<u32> = Vec::new();
            assert(empty_ords@ =~= Seq::<u32>::empty());
            let entry = match &parsed[i].0 {
                Some(pt) => {
                    match pt.requirements(&names) {
                        FieldRequirements::Any(v) => CardRequirement {
                            card_ord: i as u32,
                            kind: CardRequirementKind::Any,
                            field_ords: ords_u32(&v),
                        },
                        FieldRequirements::All(v) => CardRequirement {
                            card_ord: i as u32,
                            kind: CardRequirementKind::All,
                            field_ords: ords_u32(&v),
                        },
                        FieldRequirements::Unsatisfiable => CardRequirement {
                            card_ord: i as u32,
                            kind: CardRequirementKind::Unsatisfiable,
                            field_ords: empty_ords,
                        },
                    }
                },
                None => CardRequirement {
                    card_ord: i as u32,
                    kind: CardRequirementKind::Unsatisfiable,
                    field_ords: empty_ords,
                },
            };
            out.push(entry);
            i = i + 1;
        }
        out
    }

    /// Whether some field still claims prior ordinal `o`.
    fn ord_claimed_exec(&self, o: u32) -> (r: bool)
        ensures
            r == ord_claimed(self@.fields, o),
    {
        let mut i: usize = 0;
        while i < self.fields.len()
            invariant
                i <= self.fields.len(),
                forall|j: int| 0 <= j < i ==> (#[trigger] self@.fields[j].ord) != Some(o),
            decreases self.fields.len() - i,
        {
            let hit = match self.fields[i].ord {
                Some(x) => x == o,
                None => false,
            };
            if hit {
                assert(self@.fields[i as int].ord == Some(o));
                return true;
            }
            i = i + 1;
        }
        false
    }

    /// The rename-and-removal map against the previously persisted schema:
    /// fields that kept a prior ordinal under a new name map the old name to
    /// the new one; prior ordinals no field kept map their name to nothing.
    pub fn renamed_and_removed_fields(&self, current: &Notetype) -> (r: FieldRenames)
        requires
            current@.fields.len() <= 0xFFFFFFFF,
        ensures
            r@ == spec_renamed_and_removed(self@.fields, current@.fields),
    {
        let mut map = FieldRenames { entries: Vec::new() };
        assert(map@ =~= Seq::<(Seq<char>, Option<Seq<char>>)>::empty());
        let mut i: usize = 0;
        while i < self.fields.len()
            invariant
                i <= self.fields.len(),
                current@.fields.len() <= 0xFFFFFFFF,
                map@ == gather_renames(self@.fields, current@.fields, i as int),
            decreases self.fields.len() - i,
        {
            let f = &self.fields[i];
            match f.ord {
                Some(o) => {
                    if (o as usize) < current.fields.len() {
                        let existing_name = &current.fields[o as usize].name;
                        if !existing_name.eq(&f.name) {
                            renames_set_exec(&mut map, existing_name, Some(f.name.clone()));
                        }
                    }
                },
                None => {},
            }
            i = i + 1;
        }
        let ghost gathered = map@;
        let mut k: usize = 0;
        while k < current.fields.len()
            invariant
                k <= current.fields.len(),
                current@.fields.len() <= 0xFFFFFFFF,
                map@ == add_removals(gathered, self@.fields, current@.fields, k as int),
                gathered == gather_renames(
                    self@.fields,
                    current@.fields,
                    self@.fields.len() as int,
                ),
            decreases current.fields.len() - k,
        {
            if !self.ord_claimed_exec(k as u32) {
                renames_set_exec(&mut map, &current.fields[k].name, None);
            }
            k = k + 1;
        }
        map
    }

    /// Rewrites every successfully parsed template to reflect the renames and
    /// removals; templates that failed to parse are left untouched, byte for
    /// byte.
    pub fn update_templates_for_renamed_and_removed_fields(
        &mut self,
        fields: &FieldRenames,
        parsed: &Vec<(Option<ParsedTemplate>, Option<ParsedTemplate>)>,
    )
        requires
            parsed@.len() == old(self)@.templates.len(),
        ensures
            final(self)@.id == old(self)@.id,
            final(self)@.name == old(self)@.name,
            final(self)@.mtime_secs == old(self)@.mtime_secs,
            final(self)@.usn == old(self)@.usn,
            final(self)@.config == old(self)@.config,
            final(self)@.fields == old(self)@.fields,
            final(self)@.templates.len() == old(self)@.templates.len(),
            forall|i: int|
                0 <= i < old(self)@.templates.len() ==> {
                    &&& (#[trigger] final(self)@.templates[i]).ord == old(self)@.templates[i].ord
                    &&& final(self)@.templates[i].name == old(self)@.templates[i].name
                    &&& final(self)@.templates[i].q_format == (match parsed@[i].0 {
                        Some(q) => toks_source(spec_rename(q@, fields@)),
                        None => old(self)@.templates[i].q_format,
                    })
                    &&& final(self)@.templates[i].a_format == (match parsed@[i].1 {
                        Some(a) => toks_source(spec_rename(a@, fields@)),
                        None => old(self)@.templates[i].a_format,
                    })
                },
    {
        let mut new_templates: Vec<CardTemplate> = Vec::new();
        let mut i: usize = 0;
        while i < self.templates.len()
            invariant
                i <= self.templates.len(),
                parsed@.len() == self@.templates.len(),
                new_templates@.len() == i,
                forall|j: int|
                    0 <= j < i ==> {
                        &&& (#[trigger] new_templates@[j])@.ord == self@.templates[j].ord
                        &&& new_templates@[j]@.name == self@.templates[j].name
                        &&& new_templates@[j]@.q_format == (match parsed@[j].0 {
                            Some(q) => toks_source(spec_rename(q@, fields@)),
                            None => self@.templates[j].q_format,
                        })
                        &&& new_templates@[j]@.a_format == (match parsed@[j].1 {
                            Some(a) => toks_source(spec_rename(a@, fields@)),
                            None => self@.templates[j].a_format,
                        })
                    },
            decreases self.templates.len() - i,
        {
            let tpl = &self.templates[i];
            let q_format = match &parsed[i].0 {
                Some(q) => q.rename_and_remove_fields(fields).to_source(),
                None => tpl.config.q_format.clone(),
            };
            let a_format = match &parsed[i].1 {
                Some(a) => a.rename_and_remove_fields(fields).to_source(),
                None => tpl.config.a_format.clone(),
            };
            new_templates.push(
                CardTemplate {
                    ord: tpl.ord,
                    name: tpl.name.clone(),
                    config: CardTemplateConfig { q_format, a_format },
                },
            );
            i = i + 1;
        }
        self.templates = new_templates;
    }
}


// ---------------------------------------------------------------------------
// Validation pipeline.
// ---------------------------------------------------------------------------

/// The schema as handed to `prepare_for_adding`, with an unset target deck
/// defaulted to the standard deck identity.
pub open spec fn with_default_deck(o: NotetypeV) -> NotetypeV {
    NotetypeV {
        config: ConfigV {
            target_deck_id: if o.config.target_deck_id == 0 {
                1
            } else {
                o.config.target_deck_id
            },
            ..o.config
        },
        ..o
    }
}

impl Notetype {
    /// Validates and repairs the schema in place: rejects empty schemas and
    /// empty names, normalizes and sanitizes all names, enforces
    /// case-insensitive uniqueness, repositions the sort index, recomputes
    /// the per-template requirements, and, against the previously persisted
    /// version, rewrites templates for renamed and removed fields. On any
    /// failure the whole update is refused.
    pub fn prepare_for_update(&mut self, existing: Option<&Notetype>) -> (r: Result<
        (),
        AnkiError,
    >)
        requires
            old(self)@.fields.len() <= 0xFFFF,
            old(self)@.templates.len() <= 0xFFFFFFFF,
            match existing {
                Some(e) => e@.fields.len() <= 0xFFFFFFFF,
                None => true,
            },
        ensures
            r is Err <==> prep_fails(old(self)@),
            r matches Err(e) ==> prep_err_ok(old(self)@, e),
            r is Ok ==> prepared_ok(
                old(self)@,
                final(self)@,
                match existing {
                    Some(e) => Some(e@),
                    None => None,
                },
            ),
            r is Err ==> prep_frame(old(self)@, final(self)@),
            r is Err && (prep_fields_empty(old(self)@) || prep_templates_empty(old(self)@))
                ==> final(self)@ == old(self)@,
            r is Err && !prep_fields_empty(old(self)@) && !prep_templates_empty(old(self)@)
                && prep_name_empty(old(self)@) ==> final(self)@.name == strip_quotes(
                old(self)@.name,
            ) && final(self)@.fields == old(self)@.fields && final(self)@.templates == old(
                self,
            )@.templates && final(self)@.config == old(self)@.config,
    {
        let ghost o = old(self)@;
        if self.fields.len() == 0 {
            return Err(AnkiError::invalid_input("1 field required"));
        }
        if self.templates.len() == 0 {
            return Err(AnkiError::invalid_input("1 template required"));
        }
        self.name = strip_quotes_exec(self.name.as_str());
        if self.name.is_empty() {
            return Err(AnkiError::invalid_input("Empty note type name"));
        }
        self.normalize_names();
        assert(!prep_name_empty(o));
        match self.fix_field_names() {
            Err(e) => {
                proof {
                    let i = choose|i: int|
                        0 <= i < self@.fields.len() && field_fix(
                            (#[trigger] self@.fields[i]).name,
                        ).len() == 0;
                    assert(field_fix(nfc_of(o.fields[i].name)).len() == 0);
                }
                return Err(e);
            },
            Ok(()) => {
                proof {
                    assert forall|i: int|
                        0 <= i < o.fields.len() implies field_fix(
                        nfc_of((#[trigger] o.fields[i]).name),
                    ).len() != 0 by {
                        assert(self@.fields[i].name == field_fix(nfc_of(o.fields[i].name)));
                        assert(self@.fields[i].name.len() > 0);
                    }
                    assert(!prep_bad_field_name(o));
                }
            },
        }
        match self.fix_template_names() {
            Err(e) => {
                proof {
                    let i = choose|i: int|
                        0 <= i < self@.templates.len() && template_fix(
                            (#[trigger] self@.templates[i]).name,
                        ).len() == 0;
                    assert(template_fix(nfc_of(o.templates[i].name)).len() == 0);
                }
                return Err(e);
            },
            Ok(()) => {
                proof {
                    assert forall|i: int|
                        0 <= i < o.templates.len() implies template_fix(
                        nfc_of((#[trigger] o.templates[i]).name),
                    ).len() != 0 by {
                        assert(self@.templates[i].name == template_fix(
                            nfc_of(o.templates[i].name),
                        ));
                        assert(self@.templates[i].name.len() > 0);
                    }
                    assert(!prep_bad_template_name(o));
                }
            },
        }
        self.ensure_names_unique();
        self.reposition_sort_idx();
        assert(forall|i: int|
            0 <= i < o.templates.len() ==> (#[trigger] self@.templates[i]).q_format
                == o.templates[i].q_format && self@.templates[i].a_format == o.templates[
                i
            ].a_format);
        let parsed = self.parsed_templates();
        let mut idx: usize = 0;
        let mut bad = false;
        while !bad && idx < parsed.len()
            invariant
                idx <= parsed@.len(),
                parsed@.len() == self@.templates.len(),
                self@.templates.len() == o.templates.len(),
                forall|i: int|
                    0 <= i < parsed@.len() ==> parse_rel(
                        self@.templates[i].q_format,
                        (#[trigger] parsed@[i]).0,
                    ) && parse_rel(self@.templates[i].a_format, parsed@[i].1),
                forall|i: int|
                    0 <= i < o.templates.len() ==> (#[trigger] self@.templates[i]).q_format
                        == o.templates[i].q_format && self@.templates[i].a_format == o.templates[
                        i
                    ].a_format,
                forall|i: int| 0 <= i < idx ==> template_ok(#[trigger] o.templates[i]),
                bad ==> idx < parsed@.len() && !template_ok(o.templates[idx as int]),
            decreases parsed.len() - idx, (if bad { 0int } else { 1int }),
        {
            let broken = match &parsed[idx] {
                (Some(_), Some(_)) => false,
                _ => true,
            };
            if broken {
                bad = true;
            } else {
                assert(template_ok(o.templates[idx as int]));
                idx = idx + 1;
            }
        }
        if bad {
            assert(prep_bad_template(o));
            return Err(
                AnkiError::TemplateSaveError(
                    TemplateSaveError { notetype: self.name.clone(), ordinal: idx },
                ),
            );
        }
        assert(!prep_bad_template(o));
        let reqs = self.updated_requirements(&parsed);
        let ghost fields_final = self@.fields;
        let ghost tmpl_mid = self@.templates;
        if let Some(cur) = existing {
            let map = self.renamed_and_removed_fields(cur);
            if !map.is_empty() {
                self.update_templates_for_renamed_and_removed_fields(&map, &parsed);
            }
        }
        self.config.reqs = reqs;
        proof {
            assert(template_names(self@.templates) =~= template_names(tmpl_mid));
            assert(self@.config.reqs =~= reqs@.map_values(|x: CardRequirement| x@));
            assert forall|i: int|
                0 <= i < self@.config.reqs.len() implies #[trigger] self@.config.reqs[i]
                == spec_card_requirement(
                field_names(self@.fields),
                Some(tokens_of(o.templates[i].q_format)),
                i,
            ) by {
                assert(self@.config.reqs[i] == reqs@[i]@);
                assert(parse_rel(o.templates[i].q_format, parsed@[i].0));
                assert(parsed@[i].0 matches Some(pt) && pt@ == tokens_of(
                    o.templates[i].q_format,
                ));
            }
        }
        Ok(())
    }

    /// Validates a schema about to be added for the first time: defaults an
    /// unset target deck, then runs the full update validation with no prior
    /// schema.
    pub fn prepare_for_adding(&mut self) -> (r: Result<(), AnkiError>)
        requires
            old(self)@.fields.len() <= 0xFFFF,
            old(self)@.templates.len() <= 0xFFFFFFFF,
        ensures
            r is Err <==> prep_fails(old(self)@),
            r matches Err(e) ==> prep_err_ok(old(self)@, e),
            r is Ok ==> prepared_ok(with_default_deck(old(self)@), final(self)@, None),
            r is Err ==> prep_frame(with_default_deck(old(self)@), final(self)@),
    {
        let ghost o = old(self)@;
        if self.config.target_deck_id == 0 {
            self.config.target_deck_id = 1;
        }
        assert(self@ =~= with_default_deck(o));
        let r = self.prepare_for_update(None);
        proof {
            assert(prep_fails(with_default_deck(o)) == prep_fails(o)) by {
                assert(with_default_deck(o).fields =~= o.fields);
                assert(with_default_deck(o).templates =~= o.templates);
            }
            if r is Err {
                let e = r->Err_0;
                assert(prep_err_ok(with_default_deck(o), e));
                assert(prep_err_ok(o, e));
            }
        }
        r
    }
}

} // verus!
