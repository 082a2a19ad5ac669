use vstd::prelude::*;

verus! {

// ---------------------------------------------------------------------------
// Mathematical model of template source text.
//
// A format string is a run of plain text interleaved with handlebar tags.
// A tag is `{{key}}` (a field replacement), `{{#key}}` (opens a conditional
// section), `{{^key}}` (opens a negated section) or `{{/key}}` (closes the
// innermost open section).
// ---------------------------------------------------------------------------

/// Model of one token of a parsed format string.
pub enum Tok {
    Text(Seq<char>),
    Repl(Seq<char>),
    OpenCond(Seq<char>),
    OpenNeg(Seq<char>),
    CloseCond(Seq<char>),
}

/// The key (or text) carried by a token.
pub open spec fn tok_key(t: Tok) -> Seq<char> {
    match t {
        Tok::Text(s) => s,
        Tok::Repl(k) => k,
        Tok::OpenCond(k) => k,
        Tok::OpenNeg(k) => k,
        Tok::CloseCond(k) => k,
    }
}

/// Position of the first `{{` at or after `from`, if any.
pub open spec fn find_open(s: Seq<char>, from: int) -> Option<int>
    decreases s.len() - from when 0 <= from
{
    if from + 2 > s.len() {
        None
    } else if s[from] == '{' && s[from + 1] == '{' {
        Some(from)
    } else {
        find_open(s, from + 1)
    }
}

/// Position of the first `}}` at or after `from`, if any.
pub open spec fn find_close(s: Seq<char>, from: int) -> Option<int>
    decreases s.len() - from when 0 <= from
{
    if from + 2 > s.len() {
        None
    } else if s[from] == '}' && s[from + 1] == '}' {
        Some(from)
    } else {
        find_close(s, from + 1)
    }
}

pub proof fn lemma_find_open_bounds(s: Seq<char>, from: int)
    requires
        0 <= from,
    ensures
        find_open(s, from) matches Some(i) ==> from <= i && i + 2 <= s.len(),
    decreases s.len() - from,
{
    if from + 2 > s.len() {
    } else if s[from] == '{' && s[from + 1] == '{' {
    } else {
        lemma_find_open_bounds(s, from + 1);
    }
}

pub proof fn lemma_find_close_bounds(s: Seq<char>, from: int)
    requires
        0 <= from,
    ensures
        find_close(s, from) matches Some(i) ==> from <= i && i + 2 <= s.len(),
    decreases s.len() - from,
{
    if from + 2 > s.len() {
    } else if s[from] == '}' && s[from + 1] == '}' {
    } else {
        lemma_find_close_bounds(s, from + 1);
    }
}

/// What the inner text of a tag stands for: a directive character picks the
/// token kind, and the remaining characters form the key. An empty key (or an
/// empty tag) is a syntax error.
pub open spec fn classify(inner: Seq<char>) -> Option<Tok> {
    if inner.len() == 0 {
        None
    } else if inner[0] == '#' {
        if inner.len() == 1 {
            None
        } else {
            Some(Tok::OpenCond(inner.subrange(1, inner.len() as int)))
        }
    } else if inner[0] == '^' {
        if inner.len() == 1 {
            None
        } else {
            Some(Tok::OpenNeg(inner.subrange(1, inner.len() as int)))
        }
    } else if inner[0] == '/' {
        if inner.len() == 1 {
            None
        } else {
            Some(Tok::CloseCond(inner.subrange(1, inner.len() as int)))
        }
    } else {
        Some(Tok::Repl(inner))
    }
}

/// The token run of the source text from `pos` on, or nothing when a tag is
/// unterminated or malformed.
pub open spec fn spec_tokenize(s: Seq<char>, pos: int) -> Option<Seq<Tok>>
    decreases s.len() - pos when 0 <= pos <= s.len() via spec_tokenize_decreases
{
    if pos >= s.len() {
        Some(Seq::<Tok>::empty())
    } else {
        match find_open(s, pos) {
            None => Some(seq![Tok::Text(s.subrange(pos, s.len() as int))]),
            Some(i) => match find_close(s, i + 2) {
                None => None,
                Some(j) => match classify(s.subrange(i + 2, j)) {
                    None => None,
                    Some(tok) => match spec_tokenize(s, j + 2) {
                        None => None,
                        Some(rest) => Some(
                            if i > pos {
                                seq![Tok::Text(s.subrange(pos, i)), tok] + rest
                            } else {
                                seq![tok] + rest
                            },
                        ),
                    },
                },
            },
        }
    }
}

#[via_fn]
proof fn spec_tokenize_decreases(s: Seq<char>, pos: int) {
    if pos < s.len() {
        lemma_find_open_bounds(s, pos);
        if let Some(i) = find_open(s, pos) {
            lemma_find_close_bounds(s, i + 2);
        }
    }
}

// ---------------------------------------------------------------------------
// Balance: every close tag matches the innermost open section by key, and no
// section is left open at the end.
// ---------------------------------------------------------------------------

/// The open sections still unclosed after the first `i` tokens, innermost
/// last.
pub open spec fn stack_after(ts: Seq<Tok>, i: int) -> Seq<Tok>
    decreases i when 0 <= i
{
    if i <= 0 {
        Seq::<Tok>::empty()
    } else {
        let st = stack_after(ts, i - 1);
        match ts[i - 1] {
            Tok::OpenCond(_) => st.push(ts[i - 1]),
            Tok::OpenNeg(_) => st.push(ts[i - 1]),
            Tok::CloseCond(_) => if st.len() > 0 {
                st.drop_last()
            } else {
                st
            },
            _ => st,
        }
    }
}

/// A close tag at `i` finds an open section of the same key on top.
pub open spec fn close_ok(ts: Seq<Tok>, i: int) -> bool {
    ts[i] matches Tok::CloseCond(k) ==> {
        let st = stack_after(ts, i);
        st.len() > 0 && tok_key(st.last()) == k
    }
}

/// The section structure of a token run is well formed.
pub open spec fn balanced(ts: Seq<Tok>) -> bool {
    &&& forall|i: int| 0 <= i < ts.len() ==> close_ok(ts, i)
    &&& stack_after(ts, ts.len() as int).len() == 0
}

// ---------------------------------------------------------------------------
// Rendering: with a given set of non-empty field names, a template produces a
// non-empty card front exactly when some replacement of a non-empty field
// sits under positive conditionals whose keys are all non-empty. Text and
// negated sections are disregarded, as card generation does.
// ---------------------------------------------------------------------------

/// All enclosing sections are positive conditionals on non-empty fields.
pub open spec fn stack_all_active(st: Seq<Tok>, nonempty: Seq<Seq<char>>) -> bool {
    forall|j: int| 0 <= j < st.len() ==> (#[trigger] st[j] matches Tok::OpenCond(k) && nonempty.contains(k))
}

/// The template renders a non-empty result from the given non-empty fields.
pub open spec fn spec_renders(ts: Seq<Tok>, nonempty: Seq<Seq<char>>) -> bool {
    exists|i: int|
        0 <= i < ts.len() && (ts[i] matches Tok::Repl(k) && nonempty.contains(k)
            && stack_all_active(#[trigger] stack_after(ts, i), nonempty))
}

/// The views of a run of field names.
pub open spec fn names_of(v: Seq<String>) -> Seq<Seq<char>> {
    v.map_values(|s: String| s@)
}

// ---------------------------------------------------------------------------
// Requirement classification, mirroring the analyzer: `Any` lists the fields
// any one of which suffices, else `All` lists a minimal set found greedily,
// else the template can never produce a card.
// ---------------------------------------------------------------------------

/// Model of a classification result.
pub enum SpecReq {
    Any(Seq<u16>),
    All(Seq<u16>),
    Unsat,
}

/// Ordinals below `n` whose single field already makes the template render,
/// in ascending order.
pub open spec fn any_ords(ts: Seq<Tok>, names: Seq<Seq<char>>, n: int) -> Seq<u16>
    decreases n when 0 <= n
{
    if n <= 0 {
        Seq::<u16>::empty()
    } else {
        let p = any_ords(ts, names, n - 1);
        if spec_renders(ts, seq![names[n - 1]]) {
            p.push((n - 1) as u16)
        } else {
            p
        }
    }
}

/// The names that a run of ordinals picks out.
pub open spec fn ords_to_names(names: Seq<Seq<char>>, ords: Seq<u16>) -> Seq<Seq<char>> {
    ords.map_values(|o: u16| names[o as int])
}

/// The first occurrence of `v` taken out, if present.
pub open spec fn seq_remove_val(s: Seq<u16>, v: u16) -> Seq<u16>
    decreases s.len()
{
    if s.len() == 0 {
        s
    } else if s[0] == v {
        s.drop_first()
    } else {
        seq![s[0]] + seq_remove_val(s.drop_first(), v)
    }
}

/// Greedy minimization: walk the ordinals in order and drop each whose
/// removal keeps the template rendering.
pub open spec fn greedy_all(ts: Seq<Tok>, names: Seq<Seq<char>>, kept: Seq<u16>, i: int) -> Seq<u16>
    decreases names.len() - i when 0 <= i
{
    if i >= names.len() {
        kept
    } else {
        let cand = seq_remove_val(kept, i as u16);
        if spec_renders(ts, ords_to_names(names, cand)) {
            greedy_all(ts, names, cand, i + 1)
        } else {
            greedy_all(ts, names, kept, i + 1)
        }
    }
}

/// The classification of a token run against the ordered field names.
pub open spec fn spec_requirements(ts: Seq<Tok>, names: Seq<Seq<char>>) -> SpecReq {
    let anys = any_ords(ts, names, names.len() as int);
    if anys.len() > 0 {
        SpecReq::Any(anys)
    } else {
        let kept = greedy_all(ts, names, Seq::new(names.len(), |i: int| i as u16), 0);
        if spec_renders(ts, ords_to_names(names, kept)) {
            SpecReq::All(kept)
        } else {
            SpecReq::Unsat
        }
    }
}

// ---------------------------------------------------------------------------
// Rename and removal of field references.
// ---------------------------------------------------------------------------

/// Model of a rename map: old name paired with the new name, or with nothing
/// when the field was removed.
pub type RenamesV = Seq<(Seq<char>, Option<Seq<char>>)>;

/// First entry for key `k`, if any.
pub open spec fn renames_get(m: RenamesV, k: Seq<char>) -> Option<Option<Seq<char>>>
    decreases m.len()
{
    if m.len() == 0 {
        None
    } else if m[0].0 == k {
        Some(m[0].1)
    } else {
        renames_get(m.drop_first(), k)
    }
}

/// What one token becomes: renamed, kept, or dropped. A dropped section
/// marker leaves its contents in place.
pub open spec fn rename_tok(t: Tok, m: RenamesV) -> Seq<Tok> {
    match t {
        Tok::Text(_) => seq![t],
        Tok::Repl(k) => match renames_get(m, k) {
            None => seq![t],
            Some(None) => Seq::<Tok>::empty(),
            Some(Some(n)) => seq![Tok::Repl(n)],
        },
        Tok::OpenCond(k) => match renames_get(m, k) {
            None => seq![t],
            Some(None) => Seq::<Tok>::empty(),
            Some(Some(n)) => seq![Tok::OpenCond(n)],
        },
        Tok::OpenNeg(k) => match renames_get(m, k) {
            None => seq![t],
            Some(None) => Seq::<Tok>::empty(),
            Some(Some(n)) => seq![Tok::OpenNeg(n)],
        },
        Tok::CloseCond(k) => match renames_get(m, k) {
            None => seq![t],
            Some(None) => Seq::<Tok>::empty(),
            Some(Some(n)) => seq![Tok::CloseCond(n)],
        },
    }
}

/// The whole token run with the rename map applied.
pub open spec fn spec_rename(ts: Seq<Tok>, m: RenamesV) -> Seq<Tok>
    decreases ts.len()
{
    if ts.len() == 0 {
        ts
    } else {
        rename_tok(ts[0], m) + spec_rename(ts.drop_first(), m)
    }
}

pub proof fn lemma_spec_rename_push(ts: Seq<Tok>, t: Tok, m: RenamesV)
    ensures
        spec_rename(ts.push(t), m) == spec_rename(ts, m) + rename_tok(t, m),
    decreases ts.len(),
{
    if ts.len() == 0 {
        assert(ts.push(t)[0] == t);
        assert(ts.push(t).drop_first() =~= Seq::<Tok>::empty());
        assert(spec_rename(ts.push(t), m) =~= rename_tok(t, m) + spec_rename(
            ts.push(t).drop_first(),
            m,
        ));
        assert(spec_rename(ts.push(t), m) =~= rename_tok(t, m));
        assert(spec_rename(ts, m) + rename_tok(t, m) =~= rename_tok(t, m));
    } else {
        assert(ts.push(t)[0] == ts[0]);
        assert(ts.push(t).drop_first() =~= ts.drop_first().push(t));
        lemma_spec_rename_push(ts.drop_first(), t, m);
        assert(spec_rename(ts.push(t), m) =~= rename_tok(ts[0], m) + spec_rename(
            ts.drop_first().push(t),
            m,
        ));
        assert(rename_tok(ts[0], m) + (spec_rename(ts.drop_first(), m) + rename_tok(t, m)) =~= (
        rename_tok(ts[0], m) + spec_rename(ts.drop_first(), m)) + rename_tok(t, m));
    }
}

// ---------------------------------------------------------------------------
// Serialization back to source text.
// ---------------------------------------------------------------------------

/// The source text of one token.
pub open spec fn tok_source(t: Tok) -> Seq<char> {
    match t {
        Tok::Text(s) => s,
        Tok::Repl(k) => seq!['{', '{'] + k + seq!['}', '}'],
        Tok::OpenCond(k) => seq!['{', '{', '#'] + k + seq!['}', '}'],
        Tok::OpenNeg(k) => seq!['{', '{', '^'] + k + seq!['}', '}'],
        Tok::CloseCond(k) => seq!['{', '{', '/'] + k + seq!['}', '}'],
    }
}

/// The source text of a token run.
pub open spec fn toks_source(ts: Seq<Tok>) -> Seq<char>
    decreases ts.len()
{
    if ts.len() == 0 {
        Seq::<char>::empty()
    } else {
        tok_source(ts[0]) + toks_source(ts.drop_first())
    }
}

pub proof fn lemma_toks_source_push(ts: Seq<Tok>, t: Tok)
    ensures
        toks_source(ts.push(t)) == toks_source(ts) + tok_source(t),
    decreases ts.len(),
{
    if ts.len() == 0 {
        assert(ts.push(t)[0] == t);
        assert(ts.push(t).drop_first() =~= Seq::<Tok>::empty());
        assert(toks_source(ts.push(t)) =~= tok_source(ts.push(t)[0]) + toks_source(
            ts.push(t).drop_first(),
        ));
        assert(toks_source(ts.push(t)) =~= tok_source(t));
        assert(toks_source(ts) + tok_source(t) =~= tok_source(t));
    } else {
        assert(ts.push(t)[0] == ts[0]);
        assert(ts.push(t).drop_first() =~= ts.drop_first().push(t));
        lemma_toks_source_push(ts.drop_first(), t);
        assert(toks_source(ts.push(t)) =~= tok_source(ts[0]) + toks_source(
            ts.drop_first().push(t),
        ));
        assert(tok_source(ts[0]) + (toks_source(ts.drop_first()) + tok_source(t)) =~= (tok_source(
            ts[0],
        ) + toks_source(ts.drop_first())) + tok_source(t));
    }
}

// ---------------------------------------------------------------------------
// Executable tokens and parsing.
// ---------------------------------------------------------------------------

/// One token of a parsed format string.
pub enum TemplateToken {
    Text { text: String },
    Replacement { key: String },
    OpenConditional { key: String },
    OpenNegated { key: String },
    CloseConditional { key: String },
}

impl View for TemplateToken {
    type V = Tok;

    open spec fn view(&self) -> Tok {
        match self {
            TemplateToken::Text { text } => Tok::Text(text@),
            TemplateToken::Replacement { key } => Tok::Repl(key@),
            TemplateToken::OpenConditional { key } => Tok::OpenCond(key@),
            TemplateToken::OpenNegated { key } => Tok::OpenNeg(key@),
            TemplateToken::CloseConditional { key } => Tok::CloseCond(key@),
        }
    }
}

/// A format string parsed into tokens with a well-formed section structure.
pub struct ParsedTemplate {
    pub tokens: Vec<TemplateToken>,
}

impl View for ParsedTemplate {
    type V = Seq<Tok>;

    open spec fn view(&self) -> Seq<Tok> {
        self.tokens@.map_values(|t: TemplateToken| t@)
    }
}

fn find_open_at(s: &str, from: usize) -> (r: Option<usize>)
    requires
        from <= s@.len(),
    ensures
        match r {
            Some(i) => from <= i && i + 2 <= s@.len() && find_open(s@, from as int) == Some(
                i as int,
            ),
            None => find_open(s@, from as int) is None,
        },
    decreases s@.len() - from,
{
    let n = s.unicode_len();
    if n < 2 || from > n - 2 {
        None
    } else if s.get_char(from) == '{' && s.get_char(from + 1) == '{' {
        Some(from)
    } else {
        find_open_at(s, from + 1)
    }
}

fn find_close_at(s: &str, from: usize) -> (r: Option<usize>)
    requires
        from <= s@.len(),
    ensures
        match r {
            Some(i) => from <= i && i + 2 <= s@.len() && find_close(s@, from as int) == Some(
                i as int,
            ),
            None => find_close(s@, from as int) is None,
        },
    decreases s@.len() - from,
{
    let n = s.unicode_len();
    if n < 2 || from > n - 2 {
        None
    } else if s.get_char(from) == '}' && s.get_char(from + 1) == '}' {
        Some(from)
    } else {
        find_close_at(s, from + 1)
    }
}

fn classify_at(inner: &str) -> (r: Option<TemplateToken>)
    ensures
        match r {
            Some(t) => classify(inner@) == Some(t@),
            None => classify(inner@) is None,
        },
{
    let m = inner.unicode_len();
    if m == 0 {
        return None;
    }
    let c0 = inner.get_char(0);
    if c0 == '#' {
        if m == 1 {
            None
        } else {
            Some(TemplateToken::OpenConditional { key: inner.substring_char(1, m).to_owned() })
        }
    } else if c0 == '^' {
        if m == 1 {
            None
        } else {
            Some(TemplateToken::OpenNegated { key: inner.substring_char(1, m).to_owned() })
        }
    } else if c0 == '/' {
        if m == 1 {
            None
        } else {
            Some(TemplateToken::CloseConditional { key: inner.substring_char(1, m).to_owned() })
        }
    } else {
        let key = inner.to_owned();
        assert(classify(inner@) == Some(Tok::Repl(inner@)));
        Some(TemplateToken::Replacement { key })
    }
}

fn tokenize_from(s: &str, pos: usize) -> (r: Option<Vec<TemplateToken>>)
    requires
        pos <= s@.len(),
    ensures
        match r {
            Some(v) => spec_tokenize(s@, pos as int) == Some(
                v@.map_values(|t: TemplateToken| t@),
            ),
            None => spec_tokenize(s@, pos as int) is None,
        },
    decreases s@.len() - pos,
{
    let n = s.unicode_len();
    if pos >= n {
        let v: Vec<TemplateToken> = Vec::new();
        assert(v@.map_values(|t: TemplateToken| t@) =~= Seq::<Tok>::empty());
        return Some(v);
    }
    match find_open_at(s, pos) {
        None => {
            let text = s.substring_char(pos, n).to_owned();
            let mut v: Vec<TemplateToken> = Vec::new();
            v.push(TemplateToken::Text { text });
            assert(v@.map_values(|t: TemplateToken| t@) =~= seq![
                Tok::Text(s@.subrange(pos as int, s@.len() as int)),
            ]);
            Some(v)
        },
        Some(i) => {
            match find_close_at(s, i + 2) {
                None => None,
                Some(j) => {
                    let inner = s.substring_char(i + 2, j);
                    match classify_at(inner) {
                        None => None,
                        Some(tok) => {
                            match tokenize_from(s, j + 2) {
                                None => None,
                                Some(mut rest) => {
                                    let ghost rest0 = rest@;
                                    let ghost tokv = tok@;
                                    rest.insert(0, tok);
                                    if i > pos {
                                        let text = s.substring_char(pos, i).to_owned();
                                        let ghost textv = text@;
                                        rest.insert(0, TemplateToken::Text { text });
                                        assert(rest@.map_values(|t: TemplateToken| t@) =~= seq![
                                            Tok::Text(textv),
                                            tokv,
                                        ] + rest0.map_values(|t: TemplateToken| t@));
                                    } else {
                                        assert(rest@.map_values(|t: TemplateToken| t@) =~= seq![
                                            tokv,
                                        ] + rest0.map_values(|t: TemplateToken| t@));
                                    }
                                    Some(rest)
                                },
                            }
                        },
                    }
                },
            }
        },
    }
}

/// The section stack after the first `i` executable tokens, each entry the
/// index of its open token.
spec fn stack_indices_ok(ts: Seq<Tok>, i: int, stack: Seq<usize>) -> bool {
    let st = stack_after(ts, i);
    &&& stack.len() == st.len()
    &&& forall|j: int|
        0 <= j < stack.len() ==> #[trigger] stack[j] < i && ts[stack[j] as int] == st[j]
}

fn token_key<'a>(t: &'a TemplateToken) -> (r: &'a String)
    ensures
        r@ == tok_key(t@),
{
    match t {
        TemplateToken::Text { text } => text,
        TemplateToken::Replacement { key } => key,
        TemplateToken::OpenConditional { key } => key,
        TemplateToken::OpenNegated { key } => key,
        TemplateToken::CloseConditional { key } => key,
    }
}

fn check_balanced(tokens: &Vec<TemplateToken>) -> (r: bool)
    ensures
        r == balanced(tokens@.map_values(|t: TemplateToken| t@)),
{
    let ghost ts = tokens@.map_values(|t: TemplateToken| t@);
    let mut stack: Vec<usize> = Vec::new();
    let mut i: usize = 0;
    while i < tokens.len()
        invariant
            i <= tokens.len(),
            ts == tokens@.map_values(|t: TemplateToken| t@),
            ts.len() == tokens@.len(),
            stack_indices_ok(ts, i as int, stack@),
            forall|q: int| 0 <= q < i ==> close_ok(ts, q),
        decreases tokens.len() - i,
    {
        let ghost st = stack_after(ts, i as int);
        let ghost old_stack = stack@;
        assert(ts[i as int] == tokens@[i as int]@);
        let t = &tokens[i];
        match t {
            TemplateToken::OpenConditional { .. } => {
                stack.push(i);
                assert(stack@ =~= old_stack.push(i));
                assert(stack_after(ts, i + 1) =~= st.push(ts[i as int]));
            },
            TemplateToken::OpenNegated { .. } => {
                stack.push(i);
                assert(stack@ =~= old_stack.push(i));
                assert(stack_after(ts, i + 1) =~= st.push(ts[i as int]));
            },
            TemplateToken::CloseConditional { key } => {
                let sl = stack.len();
                if sl == 0 {
                    assert(st.len() == 0);
                    assert(!close_ok(ts, i as int));
                    return false;
                }
                let idx = stack[sl - 1];
                assert(stack@[sl as int - 1] < i && ts[stack@[sl as int - 1] as int] == st[
                    sl as int - 1
                ]);
                assert(idx < i && ts[idx as int] == st[st.len() - 1]);
                stack.pop();
                let open_key = token_key(&tokens[idx]);
                if !open_key.eq(key) {
                    assert(!close_ok(ts, i as int));
                    return false;
                }
                assert(close_ok(ts, i as int));
                assert(stack@ =~= old_stack.drop_last());
                assert(stack_after(ts, i + 1) =~= st.drop_last());
            },
            _ => {
                assert(stack_after(ts, i + 1) =~= st);
            },
        }
        i = i + 1;
    }
    let r = stack.len() == 0;
    assert(stack_after(ts, ts.len() as int).len() == stack@.len());
    r
}

/// Parses a format string. Returns nothing when a tag is malformed or the
/// section structure does not match up; card generation treats such a
/// template as unsatisfiable, and saving it is refused.
pub fn parse(source: &str) -> (r: Option<ParsedTemplate>)
    ensures
        match r {
            Some(pt) => spec_tokenize(source@, 0) == Some(pt@) && balanced(pt@),
            None => !(spec_tokenize(source@, 0) matches Some(ts) && balanced(ts)),
        },
{
    match tokenize_from(source, 0) {
        None => None,
        Some(tokens) => {
            if check_balanced(&tokens) {
                Some(ParsedTemplate { tokens })
            } else {
                None
            }
        },
    }
}

// ---------------------------------------------------------------------------
// Rendering check.
// ---------------------------------------------------------------------------

fn contains_name(names: &Vec<String>, k: &String) -> (r: bool)
    ensures
        r == names_of(names@).contains(k@),
{
    let mut i: usize = 0;
    while i < names.len()
        invariant
            i <= names.len(),
            forall|j: int| 0 <= j < i ==> names@[j]@ != k@,
        decreases names.len() - i,
    {
        if names[i].eq(k) {
            assert(names_of(names@)[i as int] == k@);
            return true;
        }
        i = i + 1;
    }
    assert(forall|j: int| 0 <= j < names@.len() ==> names_of(names@)[j] != k@);
    false
}

/// Number of inactive entries on a stack of activity flags.
spec fn count_false(b: Seq<bool>) -> nat
    decreases b.len()
{
    if b.len() == 0 {
        0
    } else {
        count_false(b.drop_last()) + if b.last() {
            0nat
        } else {
            1nat
        }
    }
}

proof fn lemma_count_false_zero(b: Seq<bool>)
    ensures
        (count_false(b) == 0) <==> (forall|j: int| 0 <= j < b.len() ==> b[j]),
    decreases b.len(),
{
    if b.len() > 0 {
        lemma_count_false_zero(b.drop_last());
        if count_false(b) == 0 {
            assert(forall|j: int| 0 <= j < b.len() - 1 ==> b.drop_last()[j]);
            assert(forall|j: int| 0 <= j < b.len() - 1 ==> b[j] == b.drop_last()[j]);
        } else {
            if forall|j: int| 0 <= j < b.len() ==> b[j] {
                assert(forall|j: int| 0 <= j < b.len() - 1 ==> b.drop_last()[j] == b[j]);
                assert(count_false(b.drop_last()) == 0);
                assert(b.last());
            }
        }
    }
}

impl ParsedTemplate {
    /// Whether the template yields a non-empty result when exactly the given
    /// fields are non-empty.
    pub fn renders_with_fields(&self, nonempty: &Vec<String>) -> (r: bool)
        requires
            balanced(self@),
        ensures
            r == spec_renders(self@, names_of(nonempty@)),
    {
        let ghost ts = self@;
        let ghost ns = names_of(nonempty@);
        let mut stack: Vec<usize> = Vec::new();
        let mut flags: Vec<bool> = Vec::new();
        let mut inactive: usize = 0;
        let mut i: usize = 0;
        while i < self.tokens.len()
            invariant
                i <= self.tokens.len(),
                ts == self@,
                ns == names_of(nonempty@),
                balanced(ts),
                ts.len() == self.tokens@.len(),
                stack_indices_ok(ts, i as int, stack@),
                flags@.len() == stack@.len(),
                forall|j: int|
                    0 <= j < flags@.len() ==> flags@[j] == (stack_after(ts, i as int)[j] matches
                        Tok::OpenCond(k) && ns.contains(k)),
                inactive == count_false(flags@),
                forall|q: int|
                    0 <= q < i ==> !(ts[q] matches Tok::Repl(k) && ns.contains(k)
                        && stack_all_active(#[trigger] stack_after(ts, q), ns)),
            decreases self.tokens.len() - i,
        {
            let ghost st = stack_after(ts, i as int);
            let t = &self.tokens[i];
            match t {
                TemplateToken::Text { .. } => {
                    assert(stack_after(ts, i + 1) =~= st);
                },
                TemplateToken::Replacement { key } => {
                    if inactive == 0 && contains_name(nonempty, key) {
                        proof {
                            lemma_count_false_zero(flags@);
                            assert forall|j: int| 0 <= j < st.len() implies (#[trigger] st[j]
                                matches Tok::OpenCond(k) && ns.contains(k)) by {
                                assert(flags@[j]);
                            }
                            assert(stack_all_active(st, ns));
                            assert(ts[i as int] matches Tok::Repl(k) && ns.contains(k)
                                && stack_all_active(stack_after(ts, i as int), ns));
                        }
                        return true;
                    }
                    assert(stack_after(ts, i + 1) =~= st);
                    proof {
                        if inactive != 0 {
                            lemma_count_false_zero(flags@);
                            let j = choose|j: int| 0 <= j < flags@.len() && !flags@[j];
                            assert(!(st[j] matches Tok::OpenCond(k) && ns.contains(k)));
                            assert(!stack_all_active(st, ns));
                        }
                    }
                },
                TemplateToken::OpenConditional { key } => {
                    let a = contains_name(nonempty, key);
                    proof {
                        lemma_count_false_push(flags@, a);
                        lemma_count_false_le(flags@);
                    }
                    stack.push(i);
                    flags.push(a);
                    let fl = flags.len();
                    assert(inactive < fl);
                    if !a {
                        inactive = inactive + 1;
                    }
                    assert(stack_after(ts, i + 1) =~= st.push(ts[i as int]));
                },
                TemplateToken::OpenNegated { .. } => {
                    proof {
                        lemma_count_false_push(flags@, false);
                        lemma_count_false_le(flags@);
                    }
                    stack.push(i);
                    flags.push(false);
                    let fl = flags.len();
                    assert(inactive < fl);
                    inactive = inactive + 1;
                    assert(stack_after(ts, i + 1) =~= st.push(ts[i as int]));
                },
                TemplateToken::CloseConditional { .. } => {
                    assert(close_ok(ts, i as int));
                    assert(st.len() > 0);
                    proof {
                        lemma_count_false_push(flags@.drop_last(), flags@.last());
                        assert(flags@.drop_last().push(flags@.last()) =~= flags@);
                    }
                    let b = flags.pop().unwrap();
                    stack.pop();
                    if !b {
                        inactive = inactive - 1;
                    }
                    assert(stack_after(ts, i + 1) =~= st.drop_last());
                },
            }
            i = i + 1;
        }
        assert(forall|q: int|
            0 <= q < ts.len() ==> !(ts[q] matches Tok::Repl(k) && ns.contains(k)
                && stack_all_active(#[trigger] stack_after(ts, q), ns)));
        false
    }
}

proof fn lemma_count_false_le(b: Seq<bool>)
    ensures
        count_false(b) <= b.len(),
    decreases b.len(),
{
    if b.len() > 0 {
        lemma_count_false_le(b.drop_last());
    }
}

proof fn lemma_count_false_push(b: Seq<bool>, x: bool)
    ensures
        count_false(b.push(x)) == count_false(b) + if x {
            0nat
        } else {
            1nat
        },
{
    assert(b.push(x).drop_last() =~= b);
    assert(b.push(x).last() == x);
}


// ---------------------------------------------------------------------------
// Executable requirement classification.
// ---------------------------------------------------------------------------

/// Classification of a question template: any one of the listed fields
/// suffices for a card, or all of them are needed, or no filling of fields
/// ever produces one.
pub enum FieldRequirements {
    Any(Vec<u16>),
    All(Vec<u16>),
    Unsatisfiable,
}

/// Ordinals strictly ascending.
pub open spec fn sorted_u16(s: Seq<u16>) -> bool {
    forall|a: int, b: int| 0 <= a < b < s.len() ==> s[a] < s[b]
}

pub proof fn lemma_any_ords_sorted(ts: Seq<Tok>, names: Seq<Seq<char>>, n: int)
    requires
        0 <= n <= 0x10000,
    ensures
        sorted_u16(any_ords(ts, names, n)),
        forall|j: int|
            0 <= j < any_ords(ts, names, n).len() ==> #[trigger] any_ords(ts, names, n)[j] < n,
    decreases n,
{
    if n > 0 {
        lemma_any_ords_sorted(ts, names, n - 1);
        let p = any_ords(ts, names, n - 1);
        if spec_renders(ts, seq![names[n - 1]]) {
            assert(any_ords(ts, names, n) =~= p.push((n - 1) as u16));
            assert(forall|j: int| 0 <= j < p.len() ==> #[trigger] p.push((n - 1) as u16)[j] == p[j]);
            assert((n - 1) as u16 == n - 1);
            assert(forall|j: int| 0 <= j < p.len() ==> #[trigger] p[j] < (n - 1) as u16);
        }
    }
}

proof fn lemma_seq_remove_val_keeps(s: Seq<u16>, v: u16, b: u16)
    requires
        forall|j: int| 0 <= j < s.len() ==> #[trigger] s[j] <= b,
        sorted_u16(s),
    ensures
        forall|j: int| 0 <= j < seq_remove_val(s, v).len() ==> #[trigger] seq_remove_val(s, v)[j] <= b,
        sorted_u16(seq_remove_val(s, v)),
    decreases s.len(),
{
    if s.len() == 0 {
    } else if s[0] == v {
    } else {
        assert(forall|j: int| 0 <= j < s.drop_first().len() ==> #[trigger] s.drop_first()[j] <= b);
        assert(sorted_u16(s.drop_first()));
        lemma_seq_remove_val_keeps(s.drop_first(), v, b);
        let r = seq![s[0]] + seq_remove_val(s.drop_first(), v);
        assert(forall|j: int| 1 <= j < r.len() ==> #[trigger] r[j] == seq_remove_val(s.drop_first(), v)[j - 1]);
        assert forall|j: int| 0 <= j < r.len() implies #[trigger] r[j] <= b by {
            if j == 0 {
                assert(r[0] == s[0]);
            }
        }
        assert forall|a: int, c: int| 0 <= a < c < r.len() implies r[a] < r[c] by {
            if a == 0 {
                let rest = seq_remove_val(s.drop_first(), v);
                lemma_seq_remove_val_origin(s.drop_first(), v, c - 1);
            }
        }
    }
}

/// Each element of the shortened run comes from the run it was taken from.
proof fn lemma_seq_remove_val_origin(s: Seq<u16>, v: u16, j: int)
    requires
        0 <= j < seq_remove_val(s, v).len(),
    ensures
        exists|p: int| 0 <= p < s.len() && s[p] == seq_remove_val(s, v)[j] && p >= j,
    decreases s.len(),
{
    if s.len() == 0 {
    } else if s[0] == v {
        assert(s[j + 1] == seq_remove_val(s, v)[j]);
    } else {
        if j == 0 {
            assert(s[0] == seq_remove_val(s, v)[0]);
        } else {
            lemma_seq_remove_val_origin(s.drop_first(), v, j - 1);
            let p = choose|p: int|
                0 <= p < s.drop_first().len() && s.drop_first()[p] == seq_remove_val(
                    s.drop_first(),
                    v,
                )[j - 1] && p >= j - 1;
            assert(s[p + 1] == seq_remove_val(s, v)[j]);
        }
    }
}

pub proof fn lemma_greedy_keeps(ts: Seq<Tok>, names: Seq<Seq<char>>, kept: Seq<u16>, i: int, b: u16)
    requires
        0 <= i,
        forall|j: int| 0 <= j < kept.len() ==> #[trigger] kept[j] <= b,
        sorted_u16(kept),
    ensures
        forall|j: int|
            0 <= j < greedy_all(ts, names, kept, i).len() ==> #[trigger] greedy_all(
                ts,
                names,
                kept,
                i,
            )[j] <= b,
        sorted_u16(greedy_all(ts, names, kept, i)),
    decreases names.len() - i,
{
    if i >= names.len() {
    } else {
        let cand = seq_remove_val(kept, i as u16);
        lemma_seq_remove_val_keeps(kept, i as u16, b);
        if spec_renders(ts, ords_to_names(names, cand)) {
            lemma_greedy_keeps(ts, names, cand, i + 1, b);
        } else {
            lemma_greedy_keeps(ts, names, kept, i + 1, b);
        }
    }
}

fn remove_ord(kept: &Vec<u16>, v: u16) -> (r: Vec<u16>)
    ensures
        r@ == seq_remove_val(kept@, v),
{
    let mut out: Vec<u16> = Vec::new();
    let mut removed = false;
    let mut i: usize = 0;
    while i < kept.len()
        invariant
            i <= kept.len(),
            !removed ==> out@ =~= kept@.subrange(0, i as int) && (forall|j: int|
                0 <= j < i ==> kept@[j] != v),
            removed ==> out@ =~= seq_remove_val(kept@.subrange(0, i as int), v)
                && kept@.subrange(0, i as int).contains(v),
        decreases kept.len() - i,
    {
        let ghost pre = kept@.subrange(0, i as int);
        let x = kept[i];
        if !removed && x == v {
            removed = true;
            proof {
                lemma_seq_remove_val_at(kept@.subrange(0, i as int + 1), v, i as int);
                assert(kept@.subrange(0, i as int + 1)[i as int] == v);
                assert(kept@.subrange(0, i as int + 1).subrange(0, i as int) =~= pre);
                assert(kept@.subrange(0, i as int + 1).subrange(i as int + 1, i as int + 1)
                    =~= Seq::<u16>::empty());
                assert(out@ =~= seq_remove_val(kept@.subrange(0, i as int + 1), v));
            }
        } else {
            out.push(x);
            proof {
                if removed {
                    lemma_seq_remove_val_at_push(pre, v, x);
                } else {
                    assert(out@ =~= kept@.subrange(0, i as int + 1));
                }
            }
        }
        i = i + 1;
        assert(kept@.subrange(0, i as int) =~= pre.push(x));
    }
    proof {
        assert(kept@.subrange(0, kept@.len() as int) =~= kept@);
        if !removed {
            lemma_seq_remove_val_absent(kept@, v);
        }
    }
    out
}

/// Removal at a known first position splits the run around it.
proof fn lemma_seq_remove_val_at(s: Seq<u16>, v: u16, p: int)
    requires
        0 <= p < s.len(),
        s[p] == v,
        forall|j: int| 0 <= j < p ==> s[j] != v,
    ensures
        seq_remove_val(s, v) == s.subrange(0, p) + s.subrange(p + 1, s.len() as int),
    decreases s.len(),
{
    if s[0] == v {
        assert(p == 0);
        assert(seq_remove_val(s, v) =~= s.subrange(0, 0) + s.subrange(1, s.len() as int));
    } else {
        assert(forall|j: int| 0 <= j < p - 1 ==> s.drop_first()[j] != v);
        lemma_seq_remove_val_at(s.drop_first(), v, p - 1);
        assert(s.drop_first().subrange(0, p - 1) =~= s.subrange(1, p));
        assert(s.drop_first().subrange(p, s.drop_first().len() as int) =~= s.subrange(
            p + 1,
            s.len() as int,
        ));
        assert(seq![s[0]] + (s.subrange(1, p) + s.subrange(p + 1, s.len() as int)) =~= s.subrange(
            0,
            p,
        ) + s.subrange(p + 1, s.len() as int));
    }
}

proof fn lemma_seq_remove_val_at_push(pre: Seq<u16>, v: u16, x: u16)
    requires
        pre.contains(v),
    ensures
        seq_remove_val(pre.push(x), v) == seq_remove_val(pre, v).push(x),
    decreases pre.len(),
{
    if pre.len() == 0 {
    } else if pre[0] == v {
        assert(pre.push(x)[0] == v);
        assert(pre.push(x).drop_first() =~= pre.drop_first().push(x));
        assert(seq_remove_val(pre.push(x), v) =~= pre.drop_first().push(x));
        assert(seq_remove_val(pre, v).push(x) =~= pre.drop_first().push(x));
    } else {
        assert(pre.drop_first().contains(v)) by {
            let q = choose|q: int| 0 <= q < pre.len() && pre[q] == v;
            assert(pre.drop_first()[q - 1] == v);
        }
        lemma_seq_remove_val_at_push(pre.drop_first(), v, x);
        assert(pre.push(x)[0] == pre[0]);
        assert(pre.push(x).drop_first() =~= pre.drop_first().push(x));
        assert(seq_remove_val(pre.push(x), v) =~= seq![pre[0]] + seq_remove_val(
            pre.drop_first().push(x),
            v,
        ));
        assert(seq![pre[0]] + seq_remove_val(pre.drop_first(), v).push(x) =~= (seq![pre[0]]
            + seq_remove_val(pre.drop_first(), v)).push(x));
    }
}

proof fn lemma_seq_remove_val_absent(s: Seq<u16>, v: u16)
    requires
        forall|j: int| 0 <= j < s.len() ==> s[j] != v,
    ensures
        seq_remove_val(s, v) == s,
    decreases s.len(),
{
    if s.len() > 0 {
        assert(forall|j: int| 0 <= j < s.drop_first().len() ==> s.drop_first()[j] != v);
        lemma_seq_remove_val_absent(s.drop_first(), v);
        assert(seq![s[0]] + s.drop_first() =~= s);
    }
}

fn ords_names(field_names: &Vec<String>, ords: &Vec<u16>) -> (r: Vec<String>)
    requires
        forall|j: int| 0 <= j < ords@.len() ==> #[trigger] ords@[j] < field_names@.len(),
    ensures
        names_of(r@) == ords_to_names(names_of(field_names@), ords@),
{
    let mut out: Vec<String> = Vec::new();
    let mut i: usize = 0;
    while i < ords.len()
        invariant
            i <= ords.len(),
            forall|j: int| 0 <= j < ords@.len() ==> #[trigger] ords@[j] < field_names@.len(),
            out@.len() == i,
            forall|j: int| 0 <= j < i ==> #[trigger] out@[j]@ == field_names@[ords@[j] as int]@,
        decreases ords.len() - i,
    {
        let o = ords[i];
        out.push(field_names[o as usize].clone());
        i = i + 1;
    }
    assert(names_of(out@) =~= ords_to_names(names_of(field_names@), ords@));
    out
}

impl ParsedTemplate {
    /// Classifies which fields must be non-empty for this template to produce
    /// a card, against the ordered field names of the schema.
    pub fn requirements(&self, field_names: &Vec<String>) -> (r: FieldRequirements)
        requires
            balanced(self@),
            field_names@.len() <= 0xFFFF,
        ensures
            ({
                let names = names_of(field_names@);
                match spec_requirements(self@, names) {
                    SpecReq::Any(o) => r matches FieldRequirements::Any(v) && v@ == o,
                    SpecReq::All(o) => r matches FieldRequirements::All(v) && v@ == o,
                    SpecReq::Unsat => r is Unsatisfiable,
                }
            }),
            r matches FieldRequirements::Any(v) ==> sorted_u16(v@) && v@.len() > 0 && (forall|
            j: int| 0 <= j < v@.len() ==> (#[trigger] v@[j]) < field_names@.len()),
            r matches FieldRequirements::All(v) ==> sorted_u16(v@) && (forall|j: int|
                0 <= j < v@.len() ==> (#[trigger] v@[j]) < field_names@.len()),
    {
        let ghost ts = self@;
        let ghost names = names_of(field_names@);
        let n = field_names.len();
        let mut any_vec: Vec<u16> = Vec::new();
        let mut o: usize = 0;
        while o < n
            invariant
                o <= n,
                n == field_names@.len(),
                n <= 0xFFFF,
                ts == self@,
                names == names_of(field_names@),
                balanced(ts),
                any_vec@ == any_ords(ts, names, o as int),
            decreases n - o,
        {
            let mut single: Vec<String> = Vec::new();
            single.push(field_names[o].clone());
            assert(names_of(single@) =~= seq![names[o as int]]);
            if self.renders_with_fields(&single) {
                any_vec.push(o as u16);
            }
            o = o + 1;
        }
        if any_vec.len() > 0 {
            proof {
                lemma_any_ords_sorted(ts, names, names.len() as int);
            }
            return FieldRequirements::Any(any_vec);
        }
        let mut kept: Vec<u16> = Vec::new();
        let mut q: usize = 0;
        while q < n
            invariant
                q <= n,
                n <= 0xFFFF,
                kept@ =~= Seq::new(q as nat, |j: int| j as u16),
            decreases n - q,
        {
            kept.push(q as u16);
            proof {
                i_push_new_lemma(kept@, q as int);
            }
            q = q + 1;
        }
        let ghost init = Seq::new(n as nat, |j: int| j as u16);
        assert(kept@ =~= init);
        let ghost total = greedy_all(ts, names, init, 0);
        let mut i: usize = 0;
        while i < n
            invariant
                i <= n,
                n == field_names@.len(),
                n <= 0xFFFF,
                ts == self@,
                names == names_of(field_names@),
                balanced(ts),
                total == greedy_all(ts, names, init, 0),
                init == Seq::new(n as nat, |j: int| j as u16),
                greedy_all(ts, names, kept@, i as int) == total,
                sorted_u16(kept@),
                forall|j: int| 0 <= j < kept@.len() ==> #[trigger] kept@[j] < n,
            decreases n - i,
        {
            let ghost kept0 = kept@;
            let cand = remove_ord(&kept, i as u16);
            proof {
                if n > 0 {
                    lemma_seq_remove_val_keeps(kept0, i as u16, (n - 1) as u16);
                }
            }
            assert(forall|j: int| 0 <= j < cand@.len() ==> #[trigger] cand@[j] < n);
            let cand_names = ords_names(field_names, &cand);
            let rend = self.renders_with_fields(&cand_names);
            assert(greedy_all(ts, names, kept0, i as int) == if spec_renders(
                ts,
                ords_to_names(names, seq_remove_val(kept0, i as u16)),
            ) {
                greedy_all(ts, names, seq_remove_val(kept0, i as u16), i as int + 1)
            } else {
                greedy_all(ts, names, kept0, i as int + 1)
            });
            if rend {
                kept = cand;
            }
            i = i + 1;
        }
        assert(kept@ == total);
        let kept_names = ords_names(field_names, &kept);
        if self.renders_with_fields(&kept_names) {
            FieldRequirements::All(kept)
        } else {
            FieldRequirements::Unsatisfiable
        }
    }
}

proof fn i_push_new_lemma(s: Seq<u16>, q: int)
    requires
        0 <= q,
        s =~= Seq::new(q as nat, |j: int| j as u16).push(q as u16),
    ensures
        s =~= Seq::new((q + 1) as nat, |j: int| j as u16),
{
    assert(s =~= Seq::new((q + 1) as nat, |j: int| j as u16));
}


// ---------------------------------------------------------------------------
// Executable rename and removal.
// ---------------------------------------------------------------------------

/// The view of an optional new name.
pub open spec fn opt_name_view(o: Option<String>) -> Option<Seq<char>> {
    match o {
        Some(s) => Some(s@),
        None => None,
    }
}

/// Old field names mapped to their new name, or to nothing when removed.
pub struct FieldRenames {
    pub entries: Vec<(String, Option<String>)>,
}

impl View for FieldRenames {
    type V = RenamesV;

    open spec fn view(&self) -> RenamesV {
        self.entries@.map_values(|e: (String, Option<String>)| (e.0@, opt_name_view(e.1)))
    }
}

proof fn lemma_renames_get_from(m: RenamesV, k: Seq<char>, i: int)
    requires
        0 <= i <= m.len(),
        forall|j: int| 0 <= j < i ==> #[trigger] m[j].0 != k,
    ensures
        renames_get(m, k) == renames_get(m.subrange(i, m.len() as int), k),
    decreases i,
{
    if i > 0 {
        lemma_renames_get_from(m, k, i - 1);
        let tail = m.subrange(i - 1, m.len() as int);
        assert(tail[0].0 == m[i - 1].0);
        assert(tail.drop_first() =~= m.subrange(i, m.len() as int));
        assert(renames_get(tail, k) == renames_get(tail.drop_first(), k));
    } else {
        assert(m.subrange(0, m.len() as int) =~= m);
    }
}

impl FieldRenames {
    /// No renames and no removals recorded.
    pub fn is_empty(&self) -> (r: bool)
        ensures
            r == (self@.len() == 0),
    {
        self.entries.len() == 0
    }

    /// Index of the first entry for the given old name.
    fn find(&self, k: &String) -> (r: Option<usize>)
        ensures
            match r {
                Some(p) => p < self@.len() && self@[p as int].0 == k@ && renames_get(self@, k@)
                    == Some(self@[p as int].1),
                None => renames_get(self@, k@) is None,
            },
    {
        let mut i: usize = 0;
        while i < self.entries.len()
            invariant
                i <= self.entries.len(),
                forall|j: int| 0 <= j < i ==> #[trigger] self@[j].0 != k@,
            decreases self.entries.len() - i,
        {
            if self.entries[i].0.eq(k) {
                proof {
                    lemma_renames_get_from(self@, k@, i as int);
                    let tail = self@.subrange(i as int, self@.len() as int);
                    assert(tail[0] == self@[i as int]);
                }
                return Some(i);
            }
            i = i + 1;
        }
        proof {
            lemma_renames_get_from(self@, k@, self@.len() as int);
            assert(self@.subrange(self@.len() as int, self@.len() as int) =~= Seq::<(
                Seq<char>,
                Option<Seq<char>>,
            )>::empty());
        }
        None
    }
}

impl ParsedTemplate {
    /// A copy of this template with every field reference renamed or removed
    /// per the map; a removed section keeps its contents, losing only the
    /// markers.
    pub fn rename_and_remove_fields(&self, fields: &FieldRenames) -> (r: ParsedTemplate)
        ensures
            r@ == spec_rename(self@, fields@),
    {
        let ghost ts = self@;
        let ghost m = fields@;
        let mut out: Vec<TemplateToken> = Vec::new();
        let mut i: usize = 0;
        while i < self.tokens.len()
            invariant
                i <= self.tokens.len(),
                ts == self@,
                m == fields@,
                ts.len() == self.tokens@.len(),
                out@.map_values(|t: TemplateToken| t@) == spec_rename(
                    ts.subrange(0, i as int),
                    m,
                ),
            decreases self.tokens.len() - i,
        {
            let ghost pre = ts.subrange(0, i as int);
            let ghost out0 = out@.map_values(|t: TemplateToken| t@);
            assert(ts[i as int] == self.tokens@[i as int]@);
            let t = &self.tokens[i];
            match t {
                TemplateToken::Text { text } => {
                    out.push(TemplateToken::Text { text: text.clone() });
                    assert(out@.map_values(|t: TemplateToken| t@) =~= out0 + rename_tok(
                        ts[i as int],
                        m,
                    ));
                },
                TemplateToken::Replacement { key } => {
                    match fields.find(key) {
                        None => {
                            out.push(TemplateToken::Replacement { key: key.clone() });
                            assert(out@.map_values(|t: TemplateToken| t@) =~= out0 + rename_tok(
                                ts[i as int],
                                m,
                            ));
                        },
                        Some(p) => match &self_entry(fields, p).1 {
                            Some(n) => {
                                out.push(TemplateToken::Replacement { key: n.clone() });
                                assert(out@.map_values(|t: TemplateToken| t@) =~= out0
                                    + rename_tok(ts[i as int], m));
                            },
                            None => {
                                assert(out@.map_values(|t: TemplateToken| t@) =~= out0
                                    + rename_tok(ts[i as int], m));
                            },
                        },
                    }
                },
                TemplateToken::OpenConditional { key } => {
                    match fields.find(key) {
                        None => {
                            out.push(TemplateToken::OpenConditional { key: key.clone() });
                            assert(out@.map_values(|t: TemplateToken| t@) =~= out0 + rename_tok(
                                ts[i as int],
                                m,
                            ));
                        },
                        Some(p) => match &self_entry(fields, p).1 {
                            Some(n) => {
                                out.push(TemplateToken::OpenConditional { key: n.clone() });
                                assert(out@.map_values(|t: TemplateToken| t@) =~= out0
                                    + rename_tok(ts[i as int], m));
                            },
                            None => {
                                assert(out@.map_values(|t: TemplateToken| t@) =~= out0
                                    + rename_tok(ts[i as int], m));
                            },
                        },
                    }
                },
                TemplateToken::OpenNegated { key } => {
                    match fields.find(key) {
                        None => {
                            out.push(TemplateToken::OpenNegated { key: key.clone() });
                            assert(out@.map_values(|t: TemplateToken| t@) =~= out0 + rename_tok(
                                ts[i as int],
                                m,
                            ));
                        },
                        Some(p) => match &self_entry(fields, p).1 {
                            Some(n) => {
                                out.push(TemplateToken::OpenNegated { key: n.clone() });
                                assert(out@.map_values(|t: TemplateToken| t@) =~= out0
                                    + rename_tok(ts[i as int], m));
                            },
                            None => {
                                assert(out@.map_values(|t: TemplateToken| t@) =~= out0
                                    + rename_tok(ts[i as int], m));
                            },
                        },
                    }
                },
                TemplateToken::CloseConditional { key } => {
                    match fields.find(key) {
                        None => {
                            out.push(TemplateToken::CloseConditional { key: key.clone() });
                            assert(out@.map_values(|t: TemplateToken| t@) =~= out0 + rename_tok(
                                ts[i as int],
                                m,
                            ));
                        },
                        Some(p) => match &self_entry(fields, p).1 {
                            Some(n) => {
                                out.push(TemplateToken::CloseConditional { key: n.clone() });
                                assert(out@.map_values(|t: TemplateToken| t@) =~= out0
                                    + rename_tok(ts[i as int], m));
                            },
                            None => {
                                assert(out@.map_values(|t: TemplateToken| t@) =~= out0
                                    + rename_tok(ts[i as int], m));
                            },
                        },
                    }
                },
            }
            i = i + 1;
            proof {
                lemma_spec_rename_push(pre, ts[i as int - 1], m);
                assert(pre.push(ts[i as int - 1]) =~= ts.subrange(0, i as int));
            }
        }
        assert(ts.subrange(0, ts.len() as int) =~= ts);
        ParsedTemplate { tokens: out }
    }

    /// The source text this template serializes back to.
    pub fn to_source(&self) -> (r: String)
        ensures
            r@ == toks_source(self@),
    {
        let ghost ts = self@;
        let mut out = String::new();
        let mut i: usize = 0;
        proof {
            reveal_strlit("{{");
            reveal_strlit("{{#");
            reveal_strlit("{{^");
            reveal_strlit("{{/");
            reveal_strlit("}}");
        }
        while i < self.tokens.len()
            invariant
                i <= self.tokens.len(),
                ts == self@,
                ts.len() == self.tokens@.len(),
                out@ == toks_source(ts.subrange(0, i as int)),
            decreases self.tokens.len() - i,
        {
            proof {
                reveal_strlit("{{");
                reveal_strlit("{{#");
                reveal_strlit("{{^");
                reveal_strlit("{{/");
                reveal_strlit("}}");
            }
            let ghost pre = ts.subrange(0, i as int);
            let ghost out0 = out@;
            assert(ts[i as int] == self.tokens@[i as int]@);
            let t = &self.tokens[i];
            match t {
                TemplateToken::Text { text } => {
                    out.append(text.as_str());
                },
                TemplateToken::Replacement { key } => {
                    out.append("{{");
                    out.append(key.as_str());
                    out.append("}}");
                },
                TemplateToken::OpenConditional { key } => {
                    out.append("{{#");
                    out.append(key.as_str());
                    out.append("}}");
                },
                TemplateToken::OpenNegated { key } => {
                    out.append("{{^");
                    out.append(key.as_str());
                    out.append("}}");
                },
                TemplateToken::CloseConditional { key } => {
                    out.append("{{/");
                    out.append(key.as_str());
                    out.append("}}");
                },
            }
            assert(out@ =~= out0 + tok_source(ts[i as int]));
            i = i + 1;
            proof {
                lemma_toks_source_push(pre, ts[i as int - 1]);
                assert(pre.push(ts[i as int - 1]) =~= ts.subrange(0, i as int));
            }
        }
        assert(ts.subrange(0, ts.len() as int) =~= ts);
        out
    }
}

fn self_entry<'a>(fields: &'a FieldRenames, p: usize) -> (r: &'a (String, Option<String>))
    requires
        p < fields@.len(),
    ensures
        r.0@ == fields@[p as int].0,
        opt_name_view(r.1) == fields@[p as int].1,
{
    &fields.entries[p]
}


// ---------------------------------------------------------------------------
// Laws of rename and removal.
// ---------------------------------------------------------------------------

/// Whether a token references a field of the given name; plain text never
/// does.
pub open spec fn references(t: Tok, k: Seq<char>) -> bool {
    match t {
        Tok::Text(_) => false,
        Tok::Repl(x) => x == k,
        Tok::OpenCond(x) => x == k,
        Tok::OpenNeg(x) => x == k,
        Tok::CloseCond(x) => x == k,
    }
}

/// Removal propagation: applying a map that removes `k`, and renames nothing
/// to `k`, leaves no reference to `k` in any template.
pub proof fn lemma_removal_propagation(ts: Seq<Tok>, m: RenamesV, k: Seq<char>)
    requires
        renames_get(m, k) == Some(None::<Seq<char>>),
        forall|e: int| 0 <= e < m.len() ==> (#[trigger] m[e]).1 != Some(k),
    ensures
        forall|j: int|
            0 <= j < spec_rename(ts, m).len() ==> !references(
                #[trigger] spec_rename(ts, m)[j],
                k,
            ),
    decreases ts.len(),
{
    if ts.len() > 0 {
        lemma_removal_propagation(ts.drop_first(), m, k);
        let head = rename_tok(ts[0], m);
        assert forall|j: int| 0 <= j < head.len() implies !references(#[trigger] head[j], k) by {
            if references(head[j], k) {
                lemma_renames_get_entry(m, tok_key(ts[0]));
            }
        }
        assert(forall|j: int|
            0 <= j < spec_rename(ts, m).len() ==> #[trigger] spec_rename(ts, m)[j] == (if j
                < head.len() {
                head[j]
            } else {
                spec_rename(ts.drop_first(), m)[j - head.len()]
            }));
    }
}

/// A hit in the rename map is one of its entries.
proof fn lemma_renames_get_entry(m: RenamesV, k: Seq<char>)
    requires
        renames_get(m, k) is Some,
    ensures
        exists|e: int|
            0 <= e < m.len() && (#[trigger] m[e]).0 == k && m[e].1 == renames_get(m, k)->Some_0,
    decreases m.len(),
{
    if m.len() > 0 {
        if m[0].0 == k {
            assert(m[0].0 == k && m[0].1 == renames_get(m, k)->Some_0);
        } else {
            lemma_renames_get_entry(m.drop_first(), k);
            let e = choose|e: int|
                0 <= e < m.drop_first().len() && (#[trigger] m.drop_first()[e]).0 == k
                    && m.drop_first()[e].1 == renames_get(m.drop_first(), k)->Some_0;
            assert(m[e + 1].0 == k && m[e + 1].1 == renames_get(m, k)->Some_0);
        }
    }
}

/// Unrelated templates are untouched: a map that mentions none of a
/// template's keys leaves its token run exactly as it was.
pub proof fn lemma_rename_leaves_unrelated(ts: Seq<Tok>, m: RenamesV)
    requires
        forall|j: int|
            0 <= j < ts.len() ==> renames_get(m, tok_key(#[trigger] ts[j])) is None,
    ensures
        spec_rename(ts, m) == ts,
    decreases ts.len(),
{
    if ts.len() > 0 {
        assert(forall|j: int|
            0 <= j < ts.drop_first().len() ==> renames_get(
                m,
                tok_key(#[trigger] ts.drop_first()[j]),
            ) is None);
        lemma_rename_leaves_unrelated(ts.drop_first(), m);
        assert(renames_get(m, tok_key(ts[0])) is None);
        assert(rename_tok(ts[0], m) =~= seq![ts[0]]);
        assert(seq![ts[0]] + ts.drop_first() =~= ts);
    }
}


// ---------------------------------------------------------------------------
// Law of rename round-tripping: a map that only renames, injectively,
// changes no template's requirement classification, taken against the
// correspondingly renamed field names.
// ---------------------------------------------------------------------------

/// A map that only renames, never removes.
pub open spec fn rename_only(m: RenamesV) -> bool {
    forall|e: int| 0 <= e < m.len() ==> (#[trigger] m[e]).1 is Some
}

/// The name a key becomes under a rename-only map.
pub open spec fn rename_key(m: RenamesV, k: Seq<char>) -> Seq<char> {
    match renames_get(m, k) {
        Some(Some(n)) => n,
        _ => k,
    }
}

/// No two distinct keys end up under the same name.
pub open spec fn rename_injective(m: RenamesV) -> bool {
    forall|k1: Seq<char>, k2: Seq<char>|
        #[trigger] rename_key(m, k1) == #[trigger] rename_key(m, k2) ==> k1 == k2
}

/// One token under a rename-only map.
pub open spec fn rename1(t: Tok, m: RenamesV) -> Tok {
    match t {
        Tok::Text(s) => Tok::Text(s),
        Tok::Repl(k) => Tok::Repl(rename_key(m, k)),
        Tok::OpenCond(k) => Tok::OpenCond(rename_key(m, k)),
        Tok::OpenNeg(k) => Tok::OpenNeg(rename_key(m, k)),
        Tok::CloseCond(k) => Tok::CloseCond(rename_key(m, k)),
    }
}

proof fn lemma_rename_tok_single(t: Tok, m: RenamesV)
    requires
        rename_only(m),
    ensures
        rename_tok(t, m) == seq![rename1(t, m)],
{
    if !(t is Text) {
        let k = tok_key(t);
        match renames_get(m, k) {
            Some(v) => {
                lemma_renames_get_entry(m, k);
                let e = choose|e: int|
                    0 <= e < m.len() && (#[trigger] m[e]).0 == k && m[e].1 == renames_get(
                        m,
                        k,
                    )->Some_0;
                assert(m[e].1 is Some);
                assert(rename_tok(t, m) =~= seq![rename1(t, m)]);
            },
            None => {
                assert(rename_tok(t, m) =~= seq![rename1(t, m)]);
            },
        }
    } else {
        assert(rename_tok(t, m) =~= seq![rename1(t, m)]);
    }
}

proof fn lemma_spec_rename_map(ts: Seq<Tok>, m: RenamesV)
    requires
        rename_only(m),
    ensures
        spec_rename(ts, m) == ts.map_values(|t: Tok| rename1(t, m)),
    decreases ts.len(),
{
    if ts.len() == 0 {
        assert(spec_rename(ts, m) =~= ts.map_values(|t: Tok| rename1(t, m)));
    } else {
        lemma_spec_rename_map(ts.drop_first(), m);
        lemma_rename_tok_single(ts[0], m);
        assert(spec_rename(ts, m) =~= ts.map_values(|t: Tok| rename1(t, m)));
    }
}

proof fn lemma_stack_after_rename(ts: Seq<Tok>, m: RenamesV, i: int)
    requires
        rename_only(m),
        0 <= i <= ts.len(),
    ensures
        stack_after(ts.map_values(|t: Tok| rename1(t, m)), i) == stack_after(
            ts,
            i,
        ).map_values(|t: Tok| rename1(t, m)),
    decreases i,
{
    let ts2 = ts.map_values(|t: Tok| rename1(t, m));
    if i <= 0 {
        assert(stack_after(ts2, i) =~= stack_after(ts, i).map_values(|t: Tok| rename1(t, m)));
    } else {
        lemma_stack_after_rename(ts, m, i - 1);
        let st = stack_after(ts, i - 1);
        let st2 = stack_after(ts2, i - 1);
        assert(ts2[i - 1] == rename1(ts[i - 1], m));
        match ts[i - 1] {
            Tok::OpenCond(_) => {
                assert(stack_after(ts2, i) =~= stack_after(ts, i).map_values(
                    |t: Tok| rename1(t, m),
                ));
            },
            Tok::OpenNeg(_) => {
                assert(stack_after(ts2, i) =~= stack_after(ts, i).map_values(
                    |t: Tok| rename1(t, m),
                ));
            },
            Tok::CloseCond(_) => {
                assert(st2.len() == st.len());
                if st.len() > 0 {
                    assert(st2.drop_last() =~= st.drop_last().map_values(
                        |t: Tok| rename1(t, m),
                    ));
                }
                assert(stack_after(ts2, i) =~= stack_after(ts, i).map_values(
                    |t: Tok| rename1(t, m),
                ));
            },
            _ => {
                assert(stack_after(ts2, i) =~= stack_after(ts, i).map_values(
                    |t: Tok| rename1(t, m),
                ));
            },
        }
    }
}

proof fn lemma_contains_rename(names: Seq<Seq<char>>, m: RenamesV, k: Seq<char>)
    requires
        rename_injective(m),
    ensures
        names.map_values(|n: Seq<char>| rename_key(m, n)).contains(rename_key(m, k))
            == names.contains(k),
{
    let names2 = names.map_values(|n: Seq<char>| rename_key(m, n));
    if names.contains(k) {
        let j = choose|j: int| 0 <= j < names.len() && names[j] == k;
        assert(names2[j] == rename_key(m, k));
    }
    if names2.contains(rename_key(m, k)) {
        let j = choose|j: int| 0 <= j < names2.len() && names2[j] == rename_key(m, k);
        assert(rename_key(m, names[j]) == rename_key(m, k));
        assert(names[j] == k);
    }
}

proof fn lemma_renders_rename(ts: Seq<Tok>, m: RenamesV, names: Seq<Seq<char>>)
    requires
        rename_only(m),
        rename_injective(m),
    ensures
        spec_renders(
            ts.map_values(|t: Tok| rename1(t, m)),
            names.map_values(|n: Seq<char>| rename_key(m, n)),
        ) == spec_renders(ts, names),
{
    let ts2 = ts.map_values(|t: Tok| rename1(t, m));
    let names2 = names.map_values(|n: Seq<char>| rename_key(m, n));
    if spec_renders(ts, names) {
        let i = choose|i: int|
            0 <= i < ts.len() && (ts[i] matches Tok::Repl(k) && names.contains(k)
                && stack_all_active(#[trigger] stack_after(ts, i), names));
        lemma_stack_after_rename(ts, m, i);
        let k = tok_key(ts[i]);
        lemma_contains_rename(names, m, k);
        assert(ts2[i] == rename1(ts[i], m));
        let st = stack_after(ts, i);
        let st2 = stack_after(ts2, i);
        assert forall|j: int|
            0 <= j < st2.len() implies (#[trigger] st2[j] matches Tok::OpenCond(kk)
            && names2.contains(kk)) by {
            assert(st2[j] == rename1(st[j], m));
            assert(st[j] matches Tok::OpenCond(kj) && names.contains(kj));
            lemma_contains_rename(names, m, tok_key(st[j]));
        }
        assert(ts2[i] matches Tok::Repl(kk) && names2.contains(kk) && stack_all_active(
            stack_after(ts2, i),
            names2,
        ));
        assert(spec_renders(ts2, names2));
    }
    if spec_renders(ts2, names2) {
        let i = choose|i: int|
            0 <= i < ts2.len() && (ts2[i] matches Tok::Repl(k) && names2.contains(k)
                && stack_all_active(#[trigger] stack_after(ts2, i), names2));
        lemma_stack_after_rename(ts, m, i);
        assert(ts2[i] == rename1(ts[i], m));
        assert(ts[i] is Repl);
        let k = tok_key(ts[i]);
        lemma_contains_rename(names, m, k);
        let st = stack_after(ts, i);
        let st2 = stack_after(ts2, i);
        assert forall|j: int|
            0 <= j < st.len() implies (#[trigger] st[j] matches Tok::OpenCond(kk)
            && names.contains(kk)) by {
            assert(st2[j] == rename1(st[j], m));
            assert(st2[j] matches Tok::OpenCond(kj) && names2.contains(kj));
            assert(!(st[j] is Text) ==> st2[j] == rename1(st[j], m));
            match st[j] {
                Tok::OpenCond(kk) => {
                    lemma_contains_rename(names, m, kk);
                },
                Tok::Text(s) => {
                    assert(st2[j] is Text);
                    assert(false);
                },
                Tok::Repl(_) => {
                    assert(st2[j] is Repl);
                    assert(false);
                },
                Tok::OpenNeg(_) => {
                    assert(st2[j] is OpenNeg);
                    assert(false);
                },
                Tok::CloseCond(_) => {
                    assert(st2[j] is CloseCond);
                    assert(false);
                },
            }
        }
        assert(ts[i] matches Tok::Repl(kk) && names.contains(kk) && stack_all_active(
            stack_after(ts, i),
            names,
        ));
        assert(spec_renders(ts, names));
    }
}

proof fn lemma_any_ords_rename(ts: Seq<Tok>, m: RenamesV, names: Seq<Seq<char>>, n: int)
    requires
        rename_only(m),
        rename_injective(m),
        0 <= n <= names.len(),
    ensures
        any_ords(
            ts.map_values(|t: Tok| rename1(t, m)),
            names.map_values(|x: Seq<char>| rename_key(m, x)),
            n,
        ) == any_ords(ts, names, n),
    decreases n,
{
    let ts2 = ts.map_values(|t: Tok| rename1(t, m));
    let names2 = names.map_values(|x: Seq<char>| rename_key(m, x));
    if n > 0 {
        lemma_any_ords_rename(ts, m, names, n - 1);
        assert(seq![names2[n - 1]] =~= seq![names[n - 1]].map_values(
            |x: Seq<char>| rename_key(m, x),
        ));
        lemma_renders_rename(ts, m, seq![names[n - 1]]);
    }
}

proof fn lemma_greedy_rename(
    ts: Seq<Tok>,
    m: RenamesV,
    names: Seq<Seq<char>>,
    kept: Seq<u16>,
    i: int,
)
    requires
        rename_only(m),
        rename_injective(m),
        0 <= i,
        forall|j: int| 0 <= j < kept.len() ==> 0 <= (#[trigger] kept[j]) < names.len(),
    ensures
        greedy_all(
            ts.map_values(|t: Tok| rename1(t, m)),
            names.map_values(|x: Seq<char>| rename_key(m, x)),
            kept,
            i,
        ) == greedy_all(ts, names, kept, i),
    decreases names.len() - i,
{
    let ts2 = ts.map_values(|t: Tok| rename1(t, m));
    let names2 = names.map_values(|x: Seq<char>| rename_key(m, x));
    if i < names.len() {
        let cand = seq_remove_val(kept, i as u16);
        assert(forall|j: int|
            0 <= j < cand.len() ==> 0 <= (#[trigger] cand[j]) < names.len()) by {
            assert forall|j: int| 0 <= j < cand.len() implies 0 <= (#[trigger] cand[j])
                < names.len() by {
                lemma_seq_remove_val_origin(kept, i as u16, j);
            }
        }
        assert(ords_to_names(names2, cand) =~= ords_to_names(names, cand).map_values(
            |x: Seq<char>| rename_key(m, x),
        ));
        lemma_renders_rename(ts, m, ords_to_names(names, cand));
        if spec_renders(ts, ords_to_names(names, cand)) {
            lemma_greedy_rename(ts, m, names, cand, i + 1);
        } else {
            lemma_greedy_rename(ts, m, names, kept, i + 1);
        }
    }
}

/// Rename round-trip: applying a rename-only, injective map to a template
/// and, at the same ordinals, to the field names leaves the requirement
/// classification exactly as it was.
pub proof fn lemma_rename_preserves_requirements(
    ts: Seq<Tok>,
    m: RenamesV,
    names: Seq<Seq<char>>,
)
    requires
        rename_only(m),
        rename_injective(m),
        names.len() <= 0xFFFF,
    ensures
        spec_requirements(
            spec_rename(ts, m),
            names.map_values(|x: Seq<char>| rename_key(m, x)),
        ) == spec_requirements(ts, names),
{
    let ts2 = ts.map_values(|t: Tok| rename1(t, m));
    let names2 = names.map_values(|x: Seq<char>| rename_key(m, x));
    lemma_spec_rename_map(ts, m);
    lemma_any_ords_rename(ts, m, names, names.len() as int);
    let init = Seq::new(names.len(), |j: int| j as u16);
    assert(Seq::new(names2.len(), |j: int| j as u16) =~= init);
    assert(forall|j: int| 0 <= j < init.len() ==> 0 <= (#[trigger] init[j]) < names.len());
    lemma_greedy_rename(ts, m, names, init, 0);
    let kept = greedy_all(ts, names, init, 0);
    assert(forall|j: int|
        0 <= j < kept.len() ==> 0 <= (#[trigger] kept[j]) < names.len()) by {
        if names.len() > 0 {
            lemma_greedy_keeps(ts, names, init, 0, (names.len() - 1) as u16);
        } else {
            assert(greedy_all(ts, names, init, 0) == init);
        }
    }
    assert(ords_to_names(names2, kept) =~= ords_to_names(names, kept).map_values(
        |x: Seq<char>| rename_key(m, x),
    ));
    lemma_renders_rename(ts, m, ords_to_names(names, kept));
}

} // verus!
