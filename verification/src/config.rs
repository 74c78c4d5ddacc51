use vstd::prelude::*;
use vstd::string::StrSliceExecFns;

use crate::entry::{EntryView, LauncherEntry};

verus! {

/// The key reserved for the synthesized "edit the configuration" entry.  It
/// seeds the reserved-key set before any user-chosen key is added.
pub const EDIT_KEY: char = 'z';

/// A configuration document value, reduced to the shapes the parser
/// distinguishes.  A mapping keeps only the two fields the launcher reads,
/// `command` and `key` (`None` where the field is absent).
pub enum ConfigValue {
    /// A plain text node.
    Text(String),
    /// A mapping node with its `command` and `key` fields.
    Mapping { command: Option<Box<ConfigValue>>, key: Option<Box<ConfigValue>> },
    /// A list node.
    List(Vec<ConfigValue>),
    /// A node of any other shape.
    Other,
}

impl ConfigValue {
    /// Does this node hold plain text?
    pub open spec fn is_text(self) -> bool {
        self matches ConfigValue::Text(_)
    }

    /// The text of a `Text` node.
    pub open spec fn text(self) -> Seq<char> {
        self->Text_0@
    }

    /// The command text of a mapping whose `command` field holds text.
    pub open spec fn command_text(self) -> Seq<char> {
        ((self->command)->0).text()
    }

    /// The first character of the key text of a mapping whose `key` field
    /// holds text.
    pub open spec fn key_first(self) -> char {
        ((self->key)->0).text()[0]
    }
}

/// A mapping element is well formed when its `command` field, if present,
/// holds text, and — once a textual `command` is present — its `key` field,
/// if present, holds text of at least one character.
pub open spec fn wf_elem(e: ConfigValue) -> bool {
    match e {
        ConfigValue::Mapping { command, key } => match command {
            Some(c) => c.is_text() && match key {
                Some(k) => k.is_text() && k.text().len() >= 1,
                None => true,
            },
            None => true,
        },
        _ => true,
    }
}

/// Every element of the sequence is well formed.
pub open spec fn wf_elems(elems: Seq<ConfigValue>) -> bool {
    forall|i: int| 0 <= i < elems.len() ==> wf_elem(#[trigger] elems[i])
}

/// Every element of a list document is well formed.
pub open spec fn wf_doc(doc: ConfigValue) -> bool {
    match doc {
        ConfigValue::List(elems) => wf_elems(elems@),
        _ => true,
    }
}

/// Every document of the configuration is well formed.
pub open spec fn wf_docs(docs: Seq<ConfigValue>) -> bool {
    forall|d: int| 0 <= d < docs.len() ==> wf_doc(#[trigger] docs[d])
}

/// The state the parser threads through the documents: the entries built so
/// far, the reserved-key set (which only grows), and the positions
/// `(document, element)` of mappings skipped for want of a `command` field.
pub ghost struct ParseState {
    pub entries: Seq<EntryView>,
    pub reserved: Seq<char>,
    pub skipped: Seq<(int, int)>,
}

/// The outcome of parsing: either a final state, or the position of the
/// fatal malformation.
pub ghost enum ParseModel {
    Done(ParseState),
    NotAList(int),
    BadElement(int, int),
}

/// Before any document is read, there are no entries, no skipped elements,
/// and the reserved-key set holds exactly the seed key.
pub open spec fn initial_state() -> ParseState {
    ParseState {
        entries: Seq::empty(),
        reserved: seq![EDIT_KEY],
        skipped: Seq::empty(),
    }
}

/// What one list element at position `(d, i)` does to the parse state:
///  - text becomes an entry with no key;
///  - a mapping without `command` is recorded as skipped;
///  - a mapping with `command` becomes an entry, keyed by the first character
///    of its `key` text when that character is not yet reserved (in which
///    case the character is reserved at once), and keyless otherwise;
///  - any other shape is fatal.
pub open spec fn elem_step(e: ConfigValue, d: int, i: int, st: ParseState) -> ParseModel {
    match e {
        ConfigValue::Text(s) => ParseModel::Done(ParseState {
            entries: st.entries.push(EntryView { character: None, command: s@ }),
            reserved: st.reserved,
            skipped: st.skipped,
        }),
        ConfigValue::Mapping { command, key } => match command {
            None => ParseModel::Done(ParseState {
                entries: st.entries,
                reserved: st.reserved,
                skipped: st.skipped.push((d, i)),
            }),
            Some(c) => {
                let cmd = c.text();
                match key {
                    None => ParseModel::Done(ParseState {
                        entries: st.entries.push(EntryView { character: None, command: cmd }),
                        reserved: st.reserved,
                        skipped: st.skipped,
                    }),
                    Some(k) => {
                        let kc = k.text()[0];
                        if st.reserved.contains(kc) {
                            ParseModel::Done(ParseState {
                                entries: st.entries.push(
                                    EntryView { character: None, command: cmd },
                                ),
                                reserved: st.reserved,
                                skipped: st.skipped,
                            })
                        } else {
                            ParseModel::Done(ParseState {
                                entries: st.entries.push(
                                    EntryView { character: Some(kc), command: cmd },
                                ),
                                reserved: st.reserved.push(kc),
                                skipped: st.skipped,
                            })
                        }
                    },
                }
            },
        },
        _ => ParseModel::BadElement(d, i),
    }
}

/// The elements of document `d` from position `i` on, folded over the state.
pub open spec fn parse_elems_from(
    elems: Seq<ConfigValue>,
    d: int,
    i: int,
    st: ParseState,
) -> ParseModel
    decreases elems.len() - i,
{
    if i < 0 || i >= elems.len() {
        ParseModel::Done(st)
    } else {
        match elem_step(elems[i], d, i, st) {
            ParseModel::Done(st2) => parse_elems_from(elems, d, i + 1, st2),
            m => m,
        }
    }
}

/// The documents from index `d` on, folded over the state.  A document whose
/// top level is not a list is fatal.
pub open spec fn parse_docs_from(docs: Seq<ConfigValue>, d: int, st: ParseState) -> ParseModel
    decreases docs.len() - d,
{
    if d < 0 || d >= docs.len() {
        ParseModel::Done(st)
    } else {
        match docs[d] {
            ConfigValue::List(elems) => match parse_elems_from(elems@, d, 0, st) {
                ParseModel::Done(st2) => parse_docs_from(docs, d + 1, st2),
                m => m,
            },
            _ => ParseModel::NotAList(d),
        }
    }
}

/// The parse of a whole configuration, starting from the initial state.
pub open spec fn parse_model(docs: Seq<ConfigValue>) -> ParseModel {
    parse_docs_from(docs, 0, initial_state())
}

/// The rest of the parse once document `d` has produced outcome `m`: a fatal
/// outcome stands, a finished document hands its state on to the documents
/// after it.
pub open spec fn after_doc(docs: Seq<ConfigValue>, d: int, m: ParseModel) -> ParseModel {
    match m {
        ParseModel::Done(st) => parse_docs_from(docs, d + 1, st),
        _ => m,
    }
}

/// The fatal malformations of a configuration document.
#[derive(Debug)]
pub enum ParseError {
    /// A document whose top level is not a list.
    NotAList { doc: usize },
    /// A list element that is neither text nor a mapping.
    BadElement { doc: usize, index: usize },
}

/// What a successful parse returns.
pub struct ParseOutput {
    /// The entries, in document order.
    pub entries: Vec<LauncherEntry>,
    /// The keys no longer eligible for automatic assignment: the seed key
    /// followed by every accepted explicit key, in order of acceptance.
    pub reserved: Vec<char>,
    /// Positions `(document, element)` of mappings skipped for want of a
    /// `command` field.
    pub skipped: Vec<(usize, usize)>,
}

/// The views of a sequence of entries.
pub open spec fn entries_view(entries: Seq<LauncherEntry>) -> Seq<EntryView> {
    entries.map_values(|e: LauncherEntry| e@)
}

/// Skipped positions, as mathematical integers.
pub open spec fn skipped_view(sk: Seq<(usize, usize)>) -> Seq<(int, int)> {
    sk.map_values(|p: (usize, usize)| (p.0 as int, p.1 as int))
}

/// The parse state that a triple of concrete vectors stands for.
pub open spec fn state_of(
    entries: Seq<LauncherEntry>,
    reserved: Seq<char>,
    skipped: Seq<(usize, usize)>,
) -> ParseState {
    ParseState { entries: entries_view(entries), reserved, skipped: skipped_view(skipped) }
}

/// The output stands for the given final parse state.
pub open spec fn output_matches(out: ParseOutput, st: ParseState) -> bool {
    state_of(out.entries@, out.reserved@, out.skipped@) == st
}

/// The error names the position that the model declares fatal.
pub open spec fn error_matches(e: ParseError, m: ParseModel) -> bool {
    match e {
        ParseError::NotAList { doc } => m == ParseModel::NotAList(doc as int),
        ParseError::BadElement { doc, index } => m == ParseModel::BadElement(
            doc as int,
            index as int,
        ),
    }
}

pub(crate) proof fn lemma_entries_view_update(s: Seq<LauncherEntry>, j: int, e: LauncherEntry)
    requires
        0 <= j < s.len(),
    ensures
        entries_view(s.update(j, e)) == entries_view(s).update(j, e@),
{
    assert(entries_view(s.update(j, e)) =~= entries_view(s).update(j, e@));
}

proof fn lemma_entries_view_push(s: Seq<LauncherEntry>, e: LauncherEntry)
    ensures
        entries_view(s.push(e)) == entries_view(s).push(e@),
{
    assert(entries_view(s.push(e)) =~= entries_view(s).push(e@));
}

proof fn lemma_skipped_view_push(s: Seq<(usize, usize)>, p: (usize, usize))
    ensures
        skipped_view(s.push(p)) == skipped_view(s).push((p.0 as int, p.1 as int)),
{
    assert(skipped_view(s.push(p)) =~= skipped_view(s).push((p.0 as int, p.1 as int)));
}

/// Append one entry, built from a copy of the command text.
fn push_entry(entries: &mut Vec<LauncherEntry>, character: Option<char>, command: &String)
    ensures
        entries_view(final(entries)@) == entries_view(old(entries)@).push(
            (EntryView { character: character, command: command@ }),
        ),
{
    let e = LauncherEntry { character, command: command.clone() };
    let ghost ge = e;
    let ghost old_seq = entries@;
    entries.push(e);
    proof {
        lemma_entries_view_push(old_seq, ge);
    }
}

/// Does the reserved-key vector contain the character?
pub(crate) fn contains_char(v: &Vec<char>, c: char) -> (b: bool)
    ensures
        b == v@.contains(c),
{
    let mut j: usize = 0;
    while j < v.len()
        invariant
            j <= v@.len(),
            forall|t: int| 0 <= t < j ==> v@[t] != c,
        decreases v@.len() - j,
    {
        if v[j] == c {
            assert(v@[j as int] == c);
            return true;
        }
        j += 1;
    }
    false
}

/// Parse a well-formed configuration: fold every element of every document
/// into the entry list and the reserved-key set, exactly as [`parse_model`]
/// describes, stopping at the first fatal malformation.
pub fn parse_config(docs: &Vec<ConfigValue>) -> (r: Result<ParseOutput, ParseError>)
    requires
        wf_docs(docs@),
    ensures
        match r {
            Ok(out) => parse_model(docs@) matches ParseModel::Done(st) && output_matches(
                out,
                st,
            ),
            Err(e) => error_matches(e, parse_model(docs@)),
        },
{
    let mut entries: Vec<LauncherEntry> = Vec::new();
    let mut reserved: Vec<char> = Vec::new();
    reserved.push(EDIT_KEY);
    let mut skipped: Vec<(usize, usize)> = Vec::new();
    proof {
        assert(entries_view(entries@) =~= Seq::<EntryView>::empty());
        assert(reserved@ =~= seq![EDIT_KEY]);
        assert(skipped_view(skipped@) =~= Seq::<(int, int)>::empty());
        assert(state_of(entries@, reserved@, skipped@) == initial_state());
    }
    let mut d: usize = 0;
    while d < docs.len()
        invariant
            wf_docs(docs@),
            d <= docs@.len(),
            parse_docs_from(docs@, d as int, state_of(entries@, reserved@, skipped@))
                == parse_model(docs@),
        decreases docs@.len() - d,
    {
        match &docs[d] {
            ConfigValue::List(elems) => {
                let mut i: usize = 0;
                while i < elems.len()
                    invariant
                        wf_docs(docs@),
                        d < docs@.len(),
                        i <= elems@.len(),
                        docs@[d as int] == ConfigValue::List(*elems),
                        after_doc(
                            docs@,
                            d as int,
                            parse_elems_from(
                                elems@,
                                d as int,
                                i as int,
                                state_of(entries@, reserved@, skipped@),
                            ),
                        ) == parse_model(docs@),
                    decreases elems@.len() - i,
                {
                    let ghost st0 = state_of(entries@, reserved@, skipped@);
                    proof {
                        assert(wf_doc(docs@[d as int]));
                        let ghost dv = docs@[d as int];
                        assert(dv->List_0 == *elems);
                        assert(wf_elems(elems@));
                        assert(wf_elem(elems@[i as int]));
                    }
                    match &elems[i] {
                        ConfigValue::Text(s) => {
                            push_entry(&mut entries, None, s);
                        },
                        ConfigValue::Mapping { command, key } => {
                            match command {
                                None => {
                                    let ghost old_skipped = skipped@;
                                    skipped.push((d, i));
                                    proof {
                                        lemma_skipped_view_push(old_skipped, (d, i));
                                    }
                                },
                                Some(cbox) => {
                                    let cmd: &String = match &**cbox {
                                        ConfigValue::Text(s) => s,
                                        _ => vstd::pervasive::unreached(),
                                    };
                                    match key {
                                        None => {
                                            push_entry(&mut entries, None, cmd);
                                        },
                                        Some(kbox) => {
                                            let ks: &String = match &**kbox {
                                                ConfigValue::Text(s) => s,
                                                _ => vstd::pervasive::unreached(),
                                            };
                                            let kc: char = ks.as_str().get_char(0);
                                            if contains_char(&reserved, kc) {
                                                push_entry(&mut entries, None, cmd);
                                            } else {
                                                push_entry(&mut entries, Some(kc), cmd);
                                                reserved.push(kc);
                                            }
                                        },
                                    }
                                },
                            }
                        },
                        _ => {
                            proof {
                                assert(elem_step(elems@[i as int], d as int, i as int, st0)
                                    == ParseModel::BadElement(d as int, i as int));
                            }
                            return Err(ParseError::BadElement { doc: d, index: i });
                        },
                    }
                    proof {
                        assert(elem_step(elems@[i as int], d as int, i as int, st0)
                            == ParseModel::Done(state_of(entries@, reserved@, skipped@)));
                    }
                    i += 1;
                }
            },
            _ => {
                return Err(ParseError::NotAList { doc: d });
            },
        }
        d += 1;
    }
    Ok(ParseOutput { entries, reserved, skipped })
}

/// Law: an empty or absent configuration parses to no entries, nothing
/// skipped, and a reserved set holding exactly the seed key.
pub proof fn lemma_parse_empty()
    ensures
        parse_model(Seq::empty()) == ParseModel::Done(initial_state()),
{
}

/// Law: a plain text element becomes an entry with exactly that text and no
/// key, and leaves the reserved set and the skip record unchanged.
pub proof fn lemma_text_element(s: String, d: int, i: int, st: ParseState)
    ensures
        elem_step(ConfigValue::Text(s), d, i, st) == ParseModel::Done(
            (ParseState {
                entries: st.entries.push((EntryView { character: None, command: s@ })),
                reserved: st.reserved,
                skipped: st.skipped,
            }),
        ),
{
}

/// Law: a mapping whose explicit key begins with a character not yet
/// reserved yields an entry keyed by that character, and the character is
/// reserved at once.
pub proof fn lemma_explicit_key_accepted(e: ConfigValue, d: int, i: int, st: ParseState)
    requires
        e is Mapping,
        e->command matches Some(c) && c.is_text(),
        e->key matches Some(k) && k.is_text() && k.text().len() >= 1,
        !st.reserved.contains(e.key_first()),
    ensures
        elem_step(e, d, i, st) == ParseModel::Done(
            (ParseState {
                entries: st.entries.push(
                    (EntryView { character: Some(e.key_first()), command: e.command_text() }),
                ),
                reserved: st.reserved.push(e.key_first()),
                skipped: st.skipped,
            }),
        ),
{
}

/// Law: a mapping whose explicit key begins with a character that is already
/// reserved keeps no key — the explicit key is dropped silently, to be
/// assigned automatically later — and the reserved set does not change.
pub proof fn lemma_explicit_key_reserved(e: ConfigValue, d: int, i: int, st: ParseState)
    requires
        e is Mapping,
        e->command matches Some(c) && c.is_text(),
        e->key matches Some(k) && k.is_text() && k.text().len() >= 1,
        st.reserved.contains(e.key_first()),
    ensures
        elem_step(e, d, i, st) == ParseModel::Done(
            (ParseState {
                entries: st.entries.push(
                    (EntryView { character: None, command: e.command_text() }),
                ),
                reserved: st.reserved,
                skipped: st.skipped,
            }),
        ),
{
}

/// Law: a mapping without a `command` field yields no entry — only its
/// position is recorded for a diagnostic — and neither the entry list nor
/// the reserved set changes.
pub proof fn lemma_missing_command_skipped(e: ConfigValue, d: int, i: int, st: ParseState)
    requires
        e is Mapping,
        e->command is None,
    ensures
        elem_step(e, d, i, st) == ParseModel::Done(
            (ParseState {
                entries: st.entries,
                reserved: st.reserved,
                skipped: st.skipped.push((d, i)),
            }),
        ),
{
}

/// A list element the parser accepts: plain text or a mapping.
pub open spec fn good_elem(e: ConfigValue) -> bool {
    e is Text || e is Mapping
}

/// A configuration the parse can finish on: every document is a list and
/// every element of every document is text or a mapping.
pub open spec fn well_shaped(docs: Seq<ConfigValue>) -> bool {
    &&& forall|d: int| 0 <= d < docs.len() ==> (#[trigger] docs[d]) is List
    &&& forall|d: int, i: int|
        0 <= d < docs.len() && 0 <= i < (docs[d]->List_0)@.len() ==> good_elem(
            #[trigger] (docs[d]->List_0)@[i],
        )
}

proof fn lemma_elems_done_shape(elems: Seq<ConfigValue>, d: int, i: int, st: ParseState)
    requires
        0 <= i,
        parse_elems_from(elems, d, i, st) is Done,
    ensures
        forall|t: int| i <= t < elems.len() ==> good_elem(#[trigger] elems[t]),
    decreases elems.len() - i,
{
    if i < elems.len() {
        let m = elem_step(elems[i], d, i, st);
        assert(good_elem(elems[i]));
        assert(m is Done);
        lemma_elems_done_shape(elems, d, i + 1, m->Done_0);
    }
}

proof fn lemma_docs_done_shape(docs: Seq<ConfigValue>, d: int, st: ParseState)
    requires
        0 <= d,
        parse_docs_from(docs, d, st) is Done,
    ensures
        forall|t: int| d <= t < docs.len() ==> (#[trigger] docs[t]) is List,
        forall|t: int, u: int|
            d <= t < docs.len() && 0 <= u < (docs[t]->List_0)@.len() ==> good_elem(
                #[trigger] (docs[t]->List_0)@[u],
            ),
    decreases docs.len() - d,
{
    if d < docs.len() {
        assert(docs[d] is List);
        let elems = (docs[d]->List_0)@;
        let m = parse_elems_from(elems, d, 0, st);
        assert(m is Done);
        lemma_elems_done_shape(elems, d, 0, st);
        lemma_docs_done_shape(docs, d + 1, m->Done_0);
    }
}

/// Law: the parse finishes only on a well-shaped configuration — one list
/// element that is neither text nor a mapping, or one document that is not
/// a list, aborts the whole parse, and no partial entry list comes back.
pub proof fn lemma_done_implies_well_shaped(docs: Seq<ConfigValue>)
    requires
        parse_model(docs) is Done,
    ensures
        well_shaped(docs),
{
    lemma_docs_done_shape(docs, 0, initial_state());
}

/// What the parser guarantees of keys at every step: the reserved set starts
/// at the seed key and holds no character twice; every explicit entry key is
/// reserved and differs from the seed key; and no two entries hold the same
/// explicit key.
pub open spec fn keys_wf(st: ParseState) -> bool {
    &&& st.reserved.len() >= 1
    &&& st.reserved[0] == EDIT_KEY
    &&& st.reserved.no_duplicates()
    &&& forall|t: int|
        0 <= t < st.entries.len() && (#[trigger] st.entries[t].character) is Some
            ==> st.reserved.contains(st.entries[t].character->0)
            && st.entries[t].character->0 != EDIT_KEY
    &&& forall|t: int, u: int|
        0 <= t < st.entries.len() && 0 <= u < st.entries.len() && t != u && (
        #[trigger] st.entries[t].character) is Some && (#[trigger] st.entries[u].character)
            is Some ==> st.entries[t].character != st.entries[u].character
}

proof fn lemma_keys_wf_push_keyless(st: ParseState, st2: ParseState, cmd: Seq<char>)
    requires
        keys_wf(st),
        st2.entries == st.entries.push((EntryView { character: None, command: cmd })),
        st2.reserved == st.reserved,
    ensures
        keys_wf(st2),
{
    assert forall|t: int|
        0 <= t < st2.entries.len() && (#[trigger] st2.entries[t].character) is Some implies st2
        .reserved.contains(st2.entries[t].character->0) && st2.entries[t].character->0
        != EDIT_KEY by {
        if t < st.entries.len() {
            assert(st2.entries[t] == st.entries[t]);
        } else {
            assert(st2.entries[t].character is None);
        }
    }
    assert forall|t: int, u: int|
        0 <= t < st2.entries.len() && 0 <= u < st2.entries.len() && t != u && (
        #[trigger] st2.entries[t].character) is Some && (#[trigger] st2.entries[u].character)
        is Some implies st2.entries[t].character != st2.entries[u].character by {
        if t < st.entries.len() && u < st.entries.len() {
            assert(st2.entries[t] == st.entries[t]);
            assert(st2.entries[u] == st.entries[u]);
        } else if t < st.entries.len() {
            assert(st2.entries[u].character is None);
        } else {
            assert(st2.entries[t].character is None);
        }
    }
}

proof fn lemma_keys_wf_push_keyed(st: ParseState, st2: ParseState, cmd: Seq<char>, kc: char)
    requires
        keys_wf(st),
        !st.reserved.contains(kc),
        st2.entries == st.entries.push((EntryView { character: Some(kc), command: cmd })),
        st2.reserved == st.reserved.push(kc),
    ensures
        keys_wf(st2),
{
    assert(st2.reserved[0] == EDIT_KEY);
    assert(st.reserved.contains(EDIT_KEY));
    assert(kc != EDIT_KEY);
    assert forall|c: char| st.reserved.contains(c) implies st2.reserved.contains(c) by {
        let w = choose|w: int| 0 <= w < st.reserved.len() && st.reserved[w] == c;
        assert(st2.reserved[w] == c);
    }
    assert(st2.reserved.contains(kc)) by {
        assert(st2.reserved[st.reserved.len() as int] == kc);
    }
    assert(st2.reserved.no_duplicates()) by {
        assert forall|x: int, y: int|
            0 <= x < st2.reserved.len() && 0 <= y < st2.reserved.len() && x != y implies st2
            .reserved[x] != st2.reserved[y] by {
            if x < st.reserved.len() && y < st.reserved.len() {
                assert(st2.reserved[x] == st.reserved[x]);
                assert(st2.reserved[y] == st.reserved[y]);
            } else if x < st.reserved.len() {
                assert(st2.reserved[y] == kc);
                assert(st.reserved.contains(st.reserved[x]));
            } else {
                assert(st2.reserved[x] == kc);
                assert(st.reserved.contains(st.reserved[y]));
            }
        }
    }
    assert forall|t: int|
        0 <= t < st2.entries.len() && (#[trigger] st2.entries[t].character) is Some implies st2
        .reserved.contains(st2.entries[t].character->0) && st2.entries[t].character->0
        != EDIT_KEY by {
        if t < st.entries.len() {
            assert(st2.entries[t] == st.entries[t]);
        } else {
            assert(st2.entries[t].character == Some(kc));
        }
    }
    assert forall|t: int, u: int|
        0 <= t < st2.entries.len() && 0 <= u < st2.entries.len() && t != u && (
        #[trigger] st2.entries[t].character) is Some && (#[trigger] st2.entries[u].character)
        is Some implies st2.entries[t].character != st2.entries[u].character by {
        if t < st.entries.len() && u < st.entries.len() {
            assert(st2.entries[t] == st.entries[t]);
            assert(st2.entries[u] == st.entries[u]);
        } else if t < st.entries.len() {
            assert(st2.entries[u].character == Some(kc));
            assert(st2.entries[t] == st.entries[t]);
        } else {
            assert(st2.entries[t].character == Some(kc));
            assert(st2.entries[u] == st.entries[u]);
        }
    }
}

proof fn lemma_step_keys_wf(e: ConfigValue, d: int, i: int, st: ParseState)
    requires
        keys_wf(st),
        elem_step(e, d, i, st) is Done,
    ensures
        keys_wf(elem_step(e, d, i, st)->Done_0),
{
    let st2 = elem_step(e, d, i, st)->Done_0;
    match e {
        ConfigValue::Text(s) => {
            lemma_keys_wf_push_keyless(st, st2, s@);
        },
        ConfigValue::Mapping { command, key } => match command {
            None => {},
            Some(c) => match key {
                None => {
                    lemma_keys_wf_push_keyless(st, st2, c.text());
                },
                Some(k) => {
                    if st.reserved.contains(k.text()[0]) {
                        lemma_keys_wf_push_keyless(st, st2, c.text());
                    } else {
                        lemma_keys_wf_push_keyed(st, st2, c.text(), k.text()[0]);
                    }
                },
            },
        },
        _ => {},
    }
}

proof fn lemma_elems_keys_wf(elems: Seq<ConfigValue>, d: int, i: int, st: ParseState)
    requires
        keys_wf(st),
        parse_elems_from(elems, d, i, st) is Done,
    ensures
        keys_wf(parse_elems_from(elems, d, i, st)->Done_0),
    decreases elems.len() - i,
{
    if 0 <= i < elems.len() {
        let m = elem_step(elems[i], d, i, st);
        assert(m is Done);
        lemma_step_keys_wf(elems[i], d, i, st);
        lemma_elems_keys_wf(elems, d, i + 1, m->Done_0);
    }
}

proof fn lemma_docs_keys_wf(docs: Seq<ConfigValue>, d: int, st: ParseState)
    requires
        keys_wf(st),
        parse_docs_from(docs, d, st) is Done,
    ensures
        keys_wf(parse_docs_from(docs, d, st)->Done_0),
    decreases docs.len() - d,
{
    if 0 <= d < docs.len() {
        let m = parse_elems_from((docs[d]->List_0)@, d, 0, st);
        assert(m is Done);
        lemma_elems_keys_wf((docs[d]->List_0)@, d, 0, st);
        lemma_docs_keys_wf(docs, d + 1, m->Done_0);
    }
}

/// Law: whatever configuration the parse finishes on, its final state keeps
/// the key discipline — the seed key heads a duplicate-free reserved set,
/// every explicit entry key is reserved and is not the seed key, and no two
/// entries hold the same explicit key.
pub proof fn lemma_parse_keys_wf(docs: Seq<ConfigValue>)
    requires
        parse_model(docs) is Done,
    ensures
        keys_wf(parse_model(docs)->Done_0),
{
    assert(keys_wf(initial_state())) by {
        assert(initial_state().reserved[0] == EDIT_KEY);
    }
    lemma_docs_keys_wf(docs, 0, initial_state());
}

} // verus!
