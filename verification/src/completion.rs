//! Code completion: the list of proposals, how it is filtered by what was
//! typed, how the selection moves, and what accepting a proposal inserts.
use vstd::prelude::*;

use crate::find::{lowercase, to_lowercase};
use crate::lsp::{position_hit, position_to_char_idx, Position, Range};
use crate::text::{chars_of, str_eq};

verus! {

/// An edit of a document: replace `range` by `new_text`.
pub struct TextEdit {
    pub range: Range,
    pub new_text: String,
}

/// An edit that inserts over `insert` or replaces `replace`.
pub struct InsertReplaceEdit {
    pub new_text: String,
    pub insert: Range,
    pub replace: Range,
}

/// The edit a completion proposal carries.
pub enum CompletionTextEdit {
    Edit(TextEdit),
    InsertAndReplace(InsertReplaceEdit),
}

/// A completion proposal.
pub struct CompletionItem {
    pub label: String,
    pub kind: Option<i32>,
    pub detail: Option<String>,
    pub filter_text: Option<String>,
    pub insert_text: Option<String>,
    pub text_edit: Option<CompletionTextEdit>,
}

fn clone_opt(s: &Option<String>) -> (r: Option<String>)
    ensures
        r == *s,
{
    match s {
        Some(x) => Some(x.clone()),
        None => None,
    }
}

fn clone_pos(p: &Position) -> (r: Position)
    ensures
        r == *p,
{
    Position { line: p.line, character: p.character }
}

fn clone_range(r: &Range) -> (o: Range)
    ensures
        o == *r,
{
    Range { start: clone_pos(&r.start), end: clone_pos(&r.end) }
}

impl Clone for CompletionItem {
    fn clone(&self) -> (r: Self)
        ensures
            r == *self,
    {
        let text_edit = match &self.text_edit {
            Some(CompletionTextEdit::Edit(e)) => Some(
                CompletionTextEdit::Edit(TextEdit { range: clone_range(&e.range), new_text: e.new_text.clone() }),
            ),
            Some(CompletionTextEdit::InsertAndReplace(e)) => Some(
                CompletionTextEdit::InsertAndReplace(
                    InsertReplaceEdit {
                        new_text: e.new_text.clone(),
                        insert: clone_range(&e.insert),
                        replace: clone_range(&e.replace),
                    },
                ),
            ),
            None => None,
        };
        CompletionItem {
            label: self.label.clone(),
            kind: self.kind,
            detail: clone_opt(&self.detail),
            filter_text: clone_opt(&self.filter_text),
            insert_text: clone_opt(&self.insert_text),
            text_edit,
        }
    }
}

/// One signature of a signature-help answer.
pub struct SignatureInformation {
    pub label: String,
    pub documentation: Option<String>,
}

/// A signature-help answer: the signatures, and which one is active.
pub struct SignatureHelp {
    pub signatures: Vec<SignatureInformation>,
    pub active_signature: Option<u32>,
}

/// The completion popup: the proposals, the indices of those that match what
/// was typed, and the selected row among those.
pub struct CompletionState {
    pub open: bool,
    pub items: Vec<CompletionItem>,
    pub filtered: Vec<usize>,
    pub selected: usize,
    pub invocation_id: u64,
    pub typed_prefix: String,
    pub invoked_at: Option<Position>,
}

/// The signature-help window.
pub struct SignatureHelpState {
    pub open: bool,
    pub help: Option<SignatureHelp>,
}

/// What the user did with the completion popup.
pub enum CompletionAction {
    Accept(Box<CompletionItem>),
    Cancel,
}

/// A key the completion popup reacts to.
pub enum CompletionKey {
    Down,
    Up,
    Escape,
    Enter,
    Tab,
}

/// `n` occurs in `h`.
pub open spec fn contains_seq(h: Seq<char>, n: Seq<char>) -> bool {
    exists|i: int| 0 <= i && i + n.len() <= h.len() && #[trigger] h.subrange(i, i + n.len()) == n
}

/// The text a proposal is matched against: its filter text, else its label.
pub open spec fn filter_key(item: CompletionItem) -> Seq<char> {
    match item.filter_text {
        Some(f) => f@,
        None => item.label@,
    }
}

/// Whether a proposal matches the typed prefix: always for an empty prefix,
/// else when its lower-cased filter text contains the lower-cased prefix.
pub open spec fn item_matches(item: CompletionItem, prefix: Seq<char>) -> bool {
    let p = lowercase(prefix);
    p.len() == 0 || contains_seq(lowercase(filter_key(item)), p)
}

/// Indices of the proposals of `items` that match `prefix`, in order.
pub open spec fn matching_indices(items: Seq<CompletionItem>, prefix: Seq<char>) -> Seq<int>
    decreases items.len(),
{
    if items.len() == 0 {
        seq![]
    } else {
        let rest = matching_indices(items.drop_last(), prefix);
        if item_matches(items.last(), prefix) {
            rest.push(items.len() - 1)
        } else {
            rest
        }
    }
}

proof fn lemma_matching_indices_bounded(items: Seq<CompletionItem>, prefix: Seq<char>)
    ensures
        forall|k: int| 0 <= k < matching_indices(items, prefix).len()
            ==> 0 <= #[trigger] matching_indices(items, prefix)[k] < items.len(),
    decreases items.len(),
{
    if items.len() > 0 {
        let rest = matching_indices(items.drop_last(), prefix);
        lemma_matching_indices_bounded(items.drop_last(), prefix);
        assert forall|k: int| 0 <= k < matching_indices(items, prefix).len()
            implies 0 <= #[trigger] matching_indices(items, prefix)[k] < items.len() by {
            if k < rest.len() {
                assert(matching_indices(items, prefix)[k] == rest[k]);
            }
        }
    }
}

/// Whether a proposal is shown for the typed `prefix`, ignoring case: always
/// for a prefix that lower-cases to nothing, else when the lower-cased prefix
/// occurs in the lower-cased filter text (or label, without one).
pub open spec fn shown_for(item: CompletionItem, prefix: Seq<char>) -> bool {
    let text = match item.filter_text {
        Some(f) => f@,
        None => item.label@,
    };
    lowercase(prefix).len() == 0 || contains_seq(lowercase(text), lowercase(prefix))
}

/// The filtered rows are exactly the proposals shown for the prefix, ignoring
/// case, each once and in order.
pub proof fn lemma_matching_indices_exact(items: Seq<CompletionItem>, prefix: Seq<char>)
    ensures
        forall|i: int| 0 <= i < items.len() ==> (matching_indices(items, prefix).contains(i) <==> shown_for(#[trigger] items[i], prefix)),
        forall|k: int| 0 <= k < matching_indices(items, prefix).len() ==> 0 <= #[trigger] matching_indices(items, prefix)[k] < items.len(),
        forall|a: int, b: int| 0 <= a < b < matching_indices(items, prefix).len()
            ==> #[trigger] matching_indices(items, prefix)[a] < #[trigger] matching_indices(items, prefix)[b],
    decreases items.len(),
{
    let m = matching_indices(items, prefix);
    if items.len() > 0 {
        let front = items.drop_last();
        let rest = matching_indices(front, prefix);
        lemma_matching_indices_exact(front, prefix);
        assert forall|k: int| 0 <= k < m.len() implies 0 <= #[trigger] m[k] < items.len() by {
            if k < rest.len() {
                assert(m[k] == rest[k]);
            }
        }
        assert forall|a: int, b: int| 0 <= a < b < m.len() implies #[trigger] m[a] < #[trigger] m[b] by {
            assert(m[a] == rest[a]);
            if b < rest.len() {
                assert(m[b] == rest[b]);
            }
        }
        assert forall|i: int| 0 <= i < items.len() implies (m.contains(i) <==> shown_for(#[trigger] items[i], prefix)) by {
            if i < items.len() - 1 {
                assert(front[i] == items[i]);
                if m.contains(i) {
                    let k = choose|k: int| 0 <= k < m.len() && m[k] == i;
                    if k < rest.len() {
                        assert(rest[k] == m[k]);
                    }
                }
                if rest.contains(i) {
                    let k = choose|k: int| 0 <= k < rest.len() && rest[k] == i;
                    assert(m[k] == rest[k]);
                }
            } else {
                if m.contains(i) {
                    let k = choose|k: int| 0 <= k < m.len() && m[k] == i;
                    if k < rest.len() {
                        assert(rest[k] == m[k]);
                    }
                }
                if item_matches(items.last(), prefix) {
                    assert(m[m.len() - 1] == i);
                }
            }
        }
    }
}

/// Whether `n` occurs in `h`.
pub fn contains_str(h: &str, n: &str) -> (r: bool)
    ensures
        r == contains_seq(h@, n@),
{
    let hv = chars_of(h);
    let nv = chars_of(n);
    if nv.len() > hv.len() {
        assert(!contains_seq(h@, n@));
        return false;
    }
    let last = hv.len() - nv.len();
    let mut i: usize = 0;
    while i <= last
        invariant
            hv@ == h@,
            nv@ == n@,
            nv.len() <= hv.len(),
            last == hv.len() - nv.len(),
            i <= last + 1,
            forall|k: int| 0 <= k < i && k + nv@.len() <= hv@.len() ==> #[trigger] hv@.subrange(k, k + nv@.len()) != nv@,
        decreases hv.len() - i,
    {
        let mut j: usize = 0;
        let mut same = true;
        assert(hv@.subrange(i as int, i as int) =~= nv@.subrange(0, 0));
        while j < nv.len()
            invariant
                i + nv.len() <= hv.len(),
                j <= nv.len(),
                same == (hv@.subrange(i as int, i + j) == nv@.subrange(0, j as int)),
            decreases nv.len() - j,
        {
            if hv[i + j] != nv[j] {
                assert(hv@.subrange(i as int, i + j + 1)[j as int] != nv@.subrange(0, j + 1)[j as int]);
                same = false;
            } else if same {
                assert(hv@.subrange(i as int, i + j + 1) =~= hv@.subrange(i as int, i + j).push(hv@[i + j]));
                assert(nv@.subrange(0, j + 1) =~= nv@.subrange(0, j as int).push(nv@[j as int]));
            }
            if !same {
                assert(hv@.subrange(i as int, i + j + 1) != nv@.subrange(0, j + 1)) by {
                    if hv@.subrange(i as int, i + j + 1) == nv@.subrange(0, j + 1) {
                        assert(hv@.subrange(i as int, i + j) =~= hv@.subrange(i as int, i + j + 1).drop_last());
                        assert(nv@.subrange(0, j as int) =~= nv@.subrange(0, j + 1).drop_last());
                    }
                }
            }
            j = j + 1;
        }
        assert(nv@.subrange(0, nv@.len() as int) =~= nv@);
        if same {
            return true;
        }
        if i == last {
            return false;
        }
        i = i + 1;
    }
    false
}

/// Index of the selected row after `key` among `len` rows.
pub open spec fn moved_selection(selected: int, len: int, down: bool) -> int {
    if down {
        (selected + 1) % len
    } else if selected == 0 {
        len - 1
    } else {
        selected - 1
    }
}

impl CompletionState {
    /// The selected row is one of the shown rows (row 0 when none is shown),
    /// and every shown row is one of the proposals.
    pub open spec fn wf(&self) -> bool {
        &&& (self.filtered@.len() == 0 ==> self.selected == 0)
        &&& (self.filtered@.len() > 0 ==> self.selected < self.filtered@.len())
        &&& forall|k: int| 0 <= k < self.filtered@.len() ==> #[trigger] self.filtered@[k] < self.items@.len()
    }

    /// A closed popup with no proposals.
    pub fn new() -> (s: Self)
        ensures
            !s.open,
            s.items@.len() == 0,
            s.filtered@.len() == 0,
            s.selected == 0,
            s.invocation_id == 0,
            s.typed_prefix@ == Seq::<char>::empty(),
            s.invoked_at is None,
            s.wf(),
    {
        CompletionState {
            open: false,
            items: Vec::new(),
            filtered: Vec::new(),
            selected: 0,
            invocation_id: 0,
            typed_prefix: String::new(),
            invoked_at: None,
        }
    }

    /// A new completion request: its id, one more than the last (wrapping).
    pub fn next_invocation(&mut self) -> (id: u64)
        ensures
            id == (if old(self).invocation_id == u64::MAX { 0 } else { old(self).invocation_id + 1 }),
            final(self).invocation_id == id,
            final(self).items == old(self).items,
            final(self).filtered == old(self).filtered,
            final(self).selected == old(self).selected,
            final(self).open == old(self).open,
    {
        self.invocation_id = self.invocation_id.wrapping_add(1);
        self.invocation_id
    }

    /// Keeps the proposals that match the typed prefix; the selection goes
    /// back to the first row when it falls outside them.
    pub fn refilter(&mut self)
        ensures
            final(self).filtered@.map_values(|i: usize| i as int) == matching_indices(old(self).items@, old(self).typed_prefix@),
            final(self).selected == (if old(self).selected >= final(self).filtered@.len() { 0 } else { old(self).selected }),
            final(self).items == old(self).items,
            final(self).typed_prefix == old(self).typed_prefix,
            final(self).open == old(self).open,
            final(self).invocation_id == old(self).invocation_id,
            final(self).invoked_at == old(self).invoked_at,
            final(self).wf(),
            forall|i: int| 0 <= i < final(self).items@.len() ==> (final(self).filtered@.map_values(|j: usize| j as int).contains(i)
                <==> shown_for(#[trigger] final(self).items@[i], final(self).typed_prefix@)),
    {
        proof {
            lemma_matching_indices_exact(self.items@, self.typed_prefix@);
        }
        let prefix = to_lowercase(self.typed_prefix.as_str());
        let mut filtered: Vec<usize> = Vec::new();
        let mut i: usize = 0;
        while i < self.items.len()
            invariant
                i <= self.items@.len(),
                *self == *old(self),
                prefix@ == lowercase(self.typed_prefix@),
                filtered@.map_values(|k: usize| k as int) == matching_indices(self.items@.take(i as int), self.typed_prefix@),
            decreases self.items@.len() - i,
        {
            assert(self.items@.take(i + 1).drop_last() =~= self.items@.take(i as int));
            let it = &self.items[i];
            let keep = if prefix.as_str().is_empty() {
                true
            } else {
                let key: &str = match &it.filter_text {
                    Some(f) => f.as_str(),
                    None => it.label.as_str(),
                };
                let low = to_lowercase(key);
                contains_str(low.as_str(), prefix.as_str())
            };
            if keep {
                let ghost before = filtered@;
                filtered.push(i);
                assert(filtered@.map_values(|k: usize| k as int) =~= before.map_values(|k: usize| k as int).push(i as int));
            }
            i = i + 1;
        }
        assert(self.items@.take(self.items@.len() as int) =~= self.items@);
        proof {
            lemma_matching_indices_bounded(self.items@, self.typed_prefix@);
            assert forall|k: int| 0 <= k < filtered@.len() implies #[trigger] filtered@[k] < self.items@.len() by {
                assert(filtered@.map_values(|i: usize| i as int)[k] == filtered@[k] as int);
            }
        }
        self.filtered = filtered;
        if self.selected >= self.filtered.len() {
            self.selected = 0;
        }
    }

    /// New proposals for the typed `prefix`: they are filtered, the first row
    /// is selected, and the popup is open when some match.
    pub fn set_items(&mut self, items: Vec<CompletionItem>, prefix: &str)
        ensures
            final(self).items == items,
            final(self).typed_prefix@ == prefix@,
            final(self).filtered@.map_values(|i: usize| i as int) == matching_indices(items@, prefix@),
            final(self).selected == 0,
            final(self).open == (final(self).filtered@.len() > 0),
            final(self).invocation_id == old(self).invocation_id,
            final(self).invoked_at == old(self).invoked_at,
            final(self).wf(),
            forall|i: int| 0 <= i < items@.len() ==> (final(self).filtered@.map_values(|j: usize| j as int).contains(i)
                <==> shown_for(#[trigger] items@[i], prefix@)),
    {
        self.items = items;
        self.typed_prefix = String::from_str(prefix);
        self.refilter();
        self.selected = 0;
        self.open = self.filtered.len() > 0;
    }

    /// Closes the popup and forgets its proposals.
    pub fn close(&mut self)
        ensures
            !final(self).open,
            final(self).items@.len() == 0,
            final(self).filtered@.len() == 0,
            final(self).selected == 0,
            final(self).invoked_at is None,
            final(self).typed_prefix@ == Seq::<char>::empty(),
            final(self).invocation_id == old(self).invocation_id,
            final(self).wf(),
    {
        self.open = false;
        self.items = Vec::new();
        self.filtered = Vec::new();
        self.selected = 0;
        self.invoked_at = None;
        self.typed_prefix = String::new();
    }

    /// The popup's reaction to `key`: nothing while it is closed or shows no
    /// row; Down and Up move the selection (wrapping around); Escape cancels;
    /// Enter and Tab accept the selected proposal.
    pub fn handle_key(&mut self, key: CompletionKey) -> (action: Option<CompletionAction>)
        ensures
            final(self).items == old(self).items,
            final(self).invoked_at == old(self).invoked_at,
            final(self).filtered == old(self).filtered,
            final(self).open == old(self).open,
            final(self).typed_prefix == old(self).typed_prefix,
            final(self).invocation_id == old(self).invocation_id,
            old(self).wf() ==> final(self).wf(),
            old(self).wf() && old(self).open && old(self).filtered@.len() > 0
                && (key is Enter || key is Tab) ==> action matches Some(CompletionAction::Accept(_)),
            !old(self).open || old(self).filtered@.len() == 0 ==> action is None && *final(self) == *old(self),
            old(self).open && old(self).filtered@.len() > 0 ==> match key {
                CompletionKey::Down => action is None
                    && final(self).selected == moved_selection(old(self).selected as int, old(self).filtered@.len() as int, true),
                CompletionKey::Up => action is None
                    && final(self).selected == moved_selection(old(self).selected as int, old(self).filtered@.len() as int, false),
                CompletionKey::Escape => action matches Some(CompletionAction::Cancel) && final(self).selected == old(self).selected,
                _ => {
                    &&& final(self).selected == old(self).selected
                    &&& if old(self).selected < old(self).filtered@.len()
                        && old(self).filtered@[old(self).selected as int] < old(self).items@.len() {
                        action matches Some(CompletionAction::Accept(item))
                            && *item == old(self).items@[old(self).filtered@[old(self).selected as int] as int]
                    } else {
                        action is None
                    }
                },
            },
    {
        if !self.open || self.filtered.len() == 0 {
            return None;
        }
        let n = self.filtered.len();
        match key {
            CompletionKey::Down => {
                let s = self.selected;
                proof {
                    let si = s as int;
                    let ni = n as int;
                    assert((si % ni + 1) % ni == (si + 1) % ni) by (nonlinear_arith)
                        requires
                            ni > 0,
                            si >= 0,
                    ;
                }
                self.selected = (s % n + 1) % n;
                None
            },
            CompletionKey::Up => {
                self.selected = if self.selected == 0 { n - 1 } else { self.selected - 1 };
                None
            },
            CompletionKey::Escape => Some(CompletionAction::Cancel),
            _ => {
                if self.selected < n {
                    let idx = self.filtered[self.selected];
                    if idx < self.items.len() {
                        return Some(CompletionAction::Accept(Box::new(self.items[idx].clone())));
                    }
                }
                None
            },
        }
    }
}

impl SignatureHelpState {
    /// No signature help shown.
    pub fn new() -> (s: Self)
        ensures
            !s.open,
            s.help is None,
    {
        SignatureHelpState { open: false, help: None }
    }

    /// Shows `help`.
    pub fn set(&mut self, help: SignatureHelp)
        ensures
            final(self).open,
            final(self).help == Some(help),
    {
        self.help = Some(help);
        self.open = true;
    }
}

/// The glyph shown for a proposal of kind `kind` (LSP completion item kinds).
pub open spec fn glyph_of_kind(kind: Option<i32>) -> Seq<char> {
    match kind {
        Some(k) => if k == 3 || k == 2 {
            "ƒ"@
        } else if k == 6 {
            "α"@
        } else if k == 7 || k == 22 {
            "C"@
        } else if k == 8 || k == 13 {
            "E"@
        } else if k == 5 || k == 10 {
            "·"@
        } else if k == 14 {
            "K"@
        } else if k == 15 {
            "❖"@
        } else if k == 21 {
            "ᴋ"@
        } else if k == 9 {
            "M"@
        } else {
            "▢"@
        },
        None => "▢"@,
    }
}

/// The glyph shown before a proposal, by its kind: functions and methods,
/// variables, classes and structs, interfaces and enums, fields and
/// properties, keywords, snippets, constants, modules, anything else.
pub fn kind_glyph(item: &CompletionItem) -> (r: &'static str)
    ensures
        r@ == glyph_of_kind(item.kind),
{
    match item.kind {
        Some(k) => if k == 3 || k == 2 {
            "ƒ"
        } else if k == 6 {
            "α"
        } else if k == 7 || k == 22 {
            "C"
        } else if k == 8 || k == 13 {
            "E"
        } else if k == 5 || k == 10 {
            "·"
        } else if k == 14 {
            "K"
        } else if k == 15 {
            "❖"
        } else if k == 21 {
            "ᴋ"
        } else if k == 9 {
            "M"
        } else {
            "▢"
        },
        None => "▢",
    }
}

/// The row shown for a proposal: its glyph, two spaces, its label, and its
/// detail after "  ·  " when it has one.
pub open spec fn row_text_of(item: CompletionItem) -> Seq<char> {
    glyph_of_kind(item.kind) + "  "@ + item.label@ + match item.detail {
        Some(d) => "  ·  "@ + d@,
        None => Seq::<char>::empty(),
    }
}

/// The text of a proposal's row in the popup.
pub fn row_text(item: &CompletionItem) -> (r: String)
    ensures
        r@ == row_text_of(*item),
{
    let mut s = String::from_str(kind_glyph(item));
    s.append("  ");
    s.append(item.label.as_str());
    match &item.detail {
        Some(d) => {
            s.append("  ·  ");
            s.append(d.as_str());
        },
        None => {},
    }
    proof {
        assert(s@ =~= row_text_of(*item));
    }
    s
}

/// `r` is the character index of position `pos` in `content`, as
/// `position_to_char_idx` computes it.
pub open spec fn is_char_idx(content: Seq<char>, pos: Position, r: int) -> bool {
    &&& 0 <= r <= content.len()
    &&& (r < content.len() ==> position_hit(content, pos.line as nat, pos.character as nat, r))
    &&& forall|j: int| 0 <= j < r ==> !position_hit(content, pos.line as nat, pos.character as nat, j)
}

/// What accepting `item` does to `content`: the text to insert and the
/// character range it replaces. A proposal with an edit replaces the edit's
/// range (the replace range of an insert-or-replace edit); otherwise its
/// insert text (else its label) replaces the `fallback_prefix_len`
/// characters typed before the cursor.
pub fn resolve_insertion(item: &CompletionItem, content: &str, cursor_char: usize, fallback_prefix_len: usize) -> (r: (String, usize, usize))
    ensures
        match item.text_edit {
            Some(CompletionTextEdit::Edit(e)) => r.0@ == e.new_text@
                && is_char_idx(content@, e.range.start, r.1 as int)
                && is_char_idx(content@, e.range.end, r.2 as int),
            Some(CompletionTextEdit::InsertAndReplace(e)) => r.0@ == e.new_text@
                && is_char_idx(content@, e.replace.start, r.1 as int)
                && is_char_idx(content@, e.replace.end, r.2 as int),
            None => {
                &&& r.0@ == (match item.insert_text {
                    Some(t) => t@,
                    None => item.label@,
                })
                &&& r.1 == (if cursor_char >= fallback_prefix_len { (cursor_char - fallback_prefix_len) as usize } else { 0 })
                &&& r.2 == cursor_char
            },
        },
{
    match &item.text_edit {
        Some(CompletionTextEdit::Edit(e)) => {
            let s = position_to_char_idx(content, &e.range.start);
            let en = position_to_char_idx(content, &e.range.end);
            return (e.new_text.clone(), s, en);
        },
        Some(CompletionTextEdit::InsertAndReplace(e)) => {
            let s = position_to_char_idx(content, &e.replace.start);
            let en = position_to_char_idx(content, &e.replace.end);
            return (e.new_text.clone(), s, en);
        },
        None => {},
    }
    let text = match &item.insert_text {
        Some(t) => t.clone(),
        None => item.label.clone(),
    };
    let start = cursor_char.saturating_sub(fallback_prefix_len);
    (text, start, cursor_char)
}

} // verus!
