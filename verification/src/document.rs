use vstd::prelude::*;
use vstd::string::StringSliceAdditionalSpecFns;
use vstd::utf8::encode_utf8;
use crate::ast::{Script, Command};
use crate::parser::{Diagnostic, parse, parsed_as};
use crate::span::Span;
use crate::symbols::{
    SymbolIndex, build_index, indexes, InfoView, CommandInfo, CommandInfoKind, PushPopPair,
    definition_target, smallest_ref, reference_list, resolution, build_fold, law_one_entry_per_command,
};
use vstd::string::StringExecFns;

verus! {

/// A position in a text: a 0-based line and a 0-based byte column in it.
#[derive(Debug, Clone, Copy, PartialEq, Eq, Structural)]
pub struct Position {
    pub line: u32,
    pub character: u32,
}

impl Position {
    pub fn new(line: u32, character: u32) -> (res: Position)
        ensures
            res.line == line,
            res.character == character,
    {
        Position { line, character }
    }
}

/// A range between two positions.
#[derive(Debug, Clone, Copy, PartialEq, Eq, Structural)]
pub struct Range {
    pub start: Position,
    pub end: Position,
}

/// Per-document state.
pub struct Document {
    pub text: String,
    pub script: Script,
    pub diagnostics: Vec<Diagnostic>,
    pub index: SymbolIndex,
    /// Line start byte offsets (for position conversion).
    pub line_starts: Vec<u32>,
}

/// The bytes of a text.
pub open spec fn text_bytes(t: Seq<char>) -> Seq<u8> {
    encode_utf8(t)
}

/// The byte offsets at which the lines of `b` start: 0, and just past each
/// line feed.
pub open spec fn line_starts_of(b: Seq<u8>) -> Seq<u32>
    decreases b.len(),
{
    if b.len() == 0 {
        seq![0u32]
    } else if b.last() == 10 {
        line_starts_of(b.drop_last()).push(b.len() as u32)
    } else {
        line_starts_of(b.drop_last())
    }
}

/// The line that `offset` lies on: the last line starting at or before it.
pub open spec fn line_of(starts: Seq<u32>, offset: int) -> int {
    choose|i: int| is_line_of(starts, offset, i)
}

/// Line `i` starts at or before `offset`, and the next line (if any) after it.
pub open spec fn is_line_of(starts: Seq<u32>, offset: int, i: int) -> bool {
    &&& 0 <= i < starts.len()
    &&& starts[i] <= offset
    &&& i + 1 < starts.len() ==> offset < starts[i + 1]
}

/// The line starts are 0, then strictly increasing, and the last lies in the text.
pub open spec fn starts_sorted(starts: Seq<u32>, n: int) -> bool {
    &&& starts.len() > 0
    &&& starts[0] == 0
    &&& forall|i: int, j: int| 0 <= i < j < starts.len() ==> starts[i] < starts[j]
    &&& forall|i: int| 0 <= i < starts.len() ==> starts[i] <= n
}

/// The lines of a text: the first starts at 0, the starts increase and lie in
/// the text, every line but the first starts just past a line feed, and every
/// line feed starts a line.
pub proof fn lemma_line_starts(b: Seq<u8>)
    requires
        b.len() <= u32::MAX,
    ensures
        starts_sorted(line_starts_of(b), b.len() as int),
        forall|i: int|
            1 <= i < line_starts_of(b).len() ==> b[line_starts_of(b)[i] - 1] == 10,
        forall|i: int| 0 <= i < b.len() && b[i] == 10 ==> line_starts_of(b).contains((i + 1) as u32),
    decreases b.len(),
{
    if b.len() > 0 {
        lemma_line_starts(b.drop_last());
        let s = line_starts_of(b.drop_last());
        assert forall|i: int| 0 <= i < b.len() && b[i] == 10 implies line_starts_of(b).contains(
            (i + 1) as u32,
        ) by {
            if i < b.len() - 1 {
                assert(b.drop_last()[i] == b[i]);
                let k = choose|k: int| 0 <= k < s.len() && s[k] == (i + 1) as u32;
                assert(line_starts_of(b)[k] == s[k]);
            } else {
                assert(line_starts_of(b)[s.len() as int] == b.len() as u32);
            }
        }
        if b.last() == 10 {
            assert forall|i: int| 1 <= i < line_starts_of(b).len() implies b[line_starts_of(b)[i] - 1] == 10 by {
                if i < s.len() {
                    assert(b[s[i] - 1] == b.drop_last()[s[i] - 1]);
                }
            }
        } else {
            assert forall|i: int| 1 <= i < line_starts_of(b).len() implies b[line_starts_of(b)[i] - 1] == 10 by {
                assert(b[s[i] - 1] == b.drop_last()[s[i] - 1]);
            }
        }
    }
}

/// There is exactly one line that an offset in the text lies on.
proof fn lemma_line_of(starts: Seq<u32>, n: int, offset: int, i: int)
    requires
        starts_sorted(starts, n),
        0 <= offset,
        0 <= i < starts.len(),
        starts[i] <= offset,
        i + 1 < starts.len() ==> offset < starts[i + 1],
    ensures
        line_of(starts, offset) == i,
{
    assert(is_line_of(starts, offset, i));
    let k = line_of(starts, offset);
    assert(is_line_of(starts, offset, k));
    if k < i {
        assert(starts[k + 1] <= starts[i]);
    } else if i < k {
        assert(starts[i + 1] <= starts[k]);
    }
}

/// Every offset lies on some line of a line table.
proof fn lemma_line_exists(starts: Seq<u32>, n: int, offset: int, i: int)
    requires
        starts_sorted(starts, n),
        0 <= i < starts.len(),
        starts[i] <= offset,
    ensures
        is_line_of(starts, offset, line_of(starts, offset)),
    decreases starts.len() - i,
{
    if i + 1 < starts.len() && starts[i + 1] <= offset {
        lemma_line_exists(starts, n, offset, i + 1);
    } else {
        assert(is_line_of(starts, offset, i));
    }
}

/// Converting an offset to a position and the position back to an offset gives
/// the offset again.
pub proof fn law_offset_position_roundtrip(b: Seq<u8>, offset: u32)
    requires
        b.len() <= u32::MAX,
    ensures
        spec_position_to_offset(
            line_starts_of(b),
            b.len() as int,
            spec_offset_to_position(line_starts_of(b), offset),
        ) == offset,
{
    let starts = line_starts_of(b);
    lemma_line_starts(b);
    lemma_line_exists(starts, b.len() as int, offset as int, 0);
    lemma_start_at_least_line(starts, b.len() as int, line_of(starts, offset as int));
}

/// Line `i` starts at byte `i` or later.
proof fn lemma_start_at_least_line(starts: Seq<u32>, n: int, i: int)
    requires
        starts_sorted(starts, n),
        0 <= i < starts.len(),
    ensures
        starts[i] >= i,
    decreases i,
{
    if i > 0 {
        lemma_start_at_least_line(starts, n, i - 1);
    }
}

/// A position that lies within its line converts to an offset that converts
/// back to the same position.
pub proof fn law_position_offset_roundtrip(b: Seq<u8>, pos: Position)
    requires
        b.len() <= u32::MAX,
        pos.line < line_starts_of(b).len(),
        line_starts_of(b)[pos.line as int] + pos.character <= u32::MAX,
        pos.line + 1 < line_starts_of(b).len() ==> line_starts_of(b)[pos.line as int]
            + pos.character < line_starts_of(b)[pos.line + 1],
    ensures
        spec_offset_to_position(
            line_starts_of(b),
            spec_position_to_offset(line_starts_of(b), b.len() as int, pos),
        ) == pos,
{
    let starts = line_starts_of(b);
    lemma_line_starts(b);
    let offset = spec_position_to_offset(starts, b.len() as int, pos);
    lemma_line_of(starts, b.len() as int, offset as int, pos.line as int);
}

impl Document {
    /// The document's line starts are those of its text, and the text fits the
    /// 32-bit offsets of spans.
    pub open spec fn wf(&self) -> bool {
        &&& text_bytes(self.text@).len() <= u32::MAX
        &&& self.line_starts@ == line_starts_of(text_bytes(self.text@))
    }

    pub fn new(text: String) -> (res: Self)
        requires
            text_bytes(text@).len() <= u32::MAX,
        ensures
            res.wf(),
            res.text@ == text@,
            indexes(res.index, res.script),
            parsed_as(text_bytes(text@), res.script.commands@, res.diagnostics@),
    {
        let line_starts = compute_line_starts(text.as_str());
        let result = parse(text.as_str());
        let index = build_index(&result.script);
        Document { text, script: result.script, diagnostics: result.diagnostics, index, line_starts }
    }

    /// Convert a byte offset to a position (0-based line and character): the
    /// last line starting at or before the offset, and the distance from its
    /// start (0 for an offset before it).
    pub fn offset_to_position(&self, offset: u32) -> (res: Position)
        requires
            self.wf(),
        ensures
            res == spec_offset_to_position(self.line_starts@, offset),
    {
        proof { lemma_line_starts(text_bytes(self.text@)); }
        let line = last_start_at_or_before(&self.line_starts, offset);
        let col = if offset >= self.line_starts[line] {
            offset - self.line_starts[line]
        } else {
            0
        };
        Position::new(line as u32, col)
    }

    /// Convert a position to a byte offset: the start of its line plus its
    /// character; the end of the text for a line past the last.
    pub fn position_to_offset(&self, pos: Position) -> (res: u32)
        requires
            self.wf(),
            pos.line < self.line_starts@.len() ==> self.line_starts@[pos.line as int] + pos.character
                <= u32::MAX,
        ensures
            res == spec_position_to_offset(self.line_starts@, text_bytes(self.text@).len() as int, pos),
    {
        let line = pos.line as usize;
        if line < self.line_starts.len() {
            self.line_starts[line] + pos.character
        } else {
            self.text.as_str().len() as u32
        }
    }

    /// Convert a span to a range.
    pub fn span_to_range(&self, span: Span) -> (res: Range)
        requires
            self.wf(),
        ensures
            res.start == spec_offset_to_position(self.line_starts@, span.start),
            res.end == spec_offset_to_position(self.line_starts@, span.end),
    {
        Range { start: self.offset_to_position(span.start), end: self.offset_to_position(span.end) }
    }
}

pub open spec fn spec_offset_to_position(starts: Seq<u32>, offset: u32) -> Position {
    let line = line_of(starts, offset as int);
    Position {
        line: line as u32,
        character: if offset >= starts[line] { (offset - starts[line]) as u32 } else { 0 },
    }
}

pub open spec fn spec_position_to_offset(starts: Seq<u32>, n: int, pos: Position) -> u32 {
    if pos.line < starts.len() {
        (starts[pos.line as int] + pos.character) as u32
    } else {
        n as u32
    }
}

/// The last index of `starts` whose value is at most `offset`.
fn last_start_at_or_before(starts: &Vec<u32>, offset: u32) -> (res: usize)
    requires
        exists|n: int| n <= u32::MAX && starts_sorted(starts@, n),
    ensures
        res == line_of(starts@, offset as int),
        res < starts@.len(),
{
    // Binary search for the first start greater than the offset.
    let mut lo: usize = 0;
    let mut hi: usize = starts.len();
    while lo < hi
        invariant
            0 <= lo <= hi <= starts@.len(),
            exists|n: int| n <= u32::MAX && starts_sorted(starts@, n),
            forall|k: int| 0 <= k < lo ==> starts@[k] <= offset,
            forall|k: int| hi <= k < starts@.len() ==> starts@[k] > offset,
        decreases hi - lo,
    {
        let mid = lo + (hi - lo) / 2;
        if starts[mid] <= offset {
            proof {
                let n = choose|n: int| n <= u32::MAX && starts_sorted(starts@, n);
                assert forall|k: int| 0 <= k < mid + 1 implies starts@[k] <= offset by {
                    if k < mid {
                        assert(starts@[k] < starts@[mid as int]);
                    }
                }
            }
            lo = mid + 1;
        } else {
            proof {
                let n = choose|n: int| n <= u32::MAX && starts_sorted(starts@, n);
                assert forall|k: int| mid <= k < starts@.len() implies starts@[k] > offset by {
                    if k > mid {
                        assert(starts@[mid as int] < starts@[k]);
                    }
                }
            }
            hi = mid;
        }
    }
    proof {
        let n = choose|n: int| n <= u32::MAX && starts_sorted(starts@, n);
        assert(lo >= 1);
        lemma_line_of(starts@, n, offset as int, lo - 1);
    }
    lo - 1
}

/// Compute line start byte offsets.
fn compute_line_starts(text: &str) -> (res: Vec<u32>)
    requires
        text.spec_bytes().len() <= u32::MAX,
    ensures
        res@ == line_starts_of(text.spec_bytes()),
{
    let b = text.as_bytes();
    let mut starts: Vec<u32> = Vec::new();
    starts.push(0);
    proof {
        assert(b@.take(0) =~= Seq::<u8>::empty());
        assert(starts@ =~= line_starts_of(b@.take(0)));
    }
    let mut i: usize = 0;
    while i < b.len()
        invariant
            b@.len() <= u32::MAX,
            i <= b@.len(),
            starts@ == line_starts_of(b@.take(i as int)),
        decreases b@.len() - i,
    {
        proof {
            assert(b@.take(i + 1).drop_last() =~= b@.take(i as int));
            assert(b@.take(i + 1).last() == b@[i as int]);
        }
        if b[i] == 10 {
            starts.push((i + 1) as u32);
        }
        i = i + 1;
    }
    proof {
        assert(b@.take(b@.len() as int) =~= b@);
    }
    starts
}


// ---------------------------------------------------------------------------
// Editor features
// ---------------------------------------------------------------------------

/// The range a span covers.
pub open spec fn spec_range(starts: Seq<u32>, span: Span) -> Range {
    Range {
        start: spec_offset_to_position(starts, span.start),
        end: spec_offset_to_position(starts, span.end),
    }
}

pub open spec fn opt_range(starts: Seq<u32>, span: Option<Span>) -> Option<Range> {
    match span {
        Some(s) => Some(spec_range(starts, s)),
        None => None,
    }
}

/// How an outline entry is drawn.
#[derive(Debug, Clone, Copy, PartialEq, Eq, Structural)]
pub enum OutlineKind {
    Function,
    Class,
    Enum,
    Event,
    Namespace,
    Key,
}

/// An entry of the document outline.
#[derive(Debug)]
pub struct OutlineItem {
    pub name: String,
    pub kind: OutlineKind,
    pub range: Range,
}

/// What an outline entry says, its name taken as text.
pub struct OutlineView {
    pub name: Seq<char>,
    pub kind: OutlineKind,
    pub range: Range,
}

impl View for OutlineItem {
    type V = OutlineView;

    open spec fn view(&self) -> OutlineView {
        OutlineView { name: self.name@, kind: self.kind, range: self.range }
    }
}

/// The outline label and kind of a command entry; none for commands the
/// outline leaves out.
pub open spec fn outline_label(i: InfoView) -> Option<(Seq<char>, OutlineKind)> {
    let name = match i.name {
        Some(n) => n,
        None => "?"@,
    };
    match i.kind {
        CommandInfoKind::DeclareFun | CommandInfoKind::DeclareConst | CommandInfoKind::DefineFun
        | CommandInfoKind::DefineFunRec => Some((name, OutlineKind::Function)),
        CommandInfoKind::DeclareSort | CommandInfoKind::DefineSort => Some((name, OutlineKind::Class)),
        CommandInfoKind::DeclareDatatype | CommandInfoKind::DeclareDatatypes => Some(
            (name, OutlineKind::Enum),
        ),
        CommandInfoKind::Assert => Some(("assert"@, OutlineKind::Event)),
        CommandInfoKind::CheckSat => Some(("check-sat"@, OutlineKind::Event)),
        CommandInfoKind::Push => Some(("push"@, OutlineKind::Namespace)),
        CommandInfoKind::Pop => Some(("pop"@, OutlineKind::Namespace)),
        CommandInfoKind::SetLogic => Some(("set-logic "@ + name, OutlineKind::Key)),
        CommandInfoKind::Other => None,
    }
}

/// The outline of a document: one entry per labelled command, in order.
pub open spec fn outline_of(infos: Seq<InfoView>, starts: Seq<u32>) -> Seq<OutlineView>
    decreases infos.len(),
{
    if infos.len() == 0 {
        Seq::empty()
    } else {
        let i = infos.last();
        outline_of(infos.drop_last(), starts) + match outline_label(i) {
            Some((name, kind)) => seq![OutlineView { name, kind, range: spec_range(starts, i.span) }],
            None => Seq::empty(),
        }
    }
}

/// The folds of the commands that span more than one line.
pub open spec fn command_folds(infos: Seq<InfoView>, starts: Seq<u32>) -> Seq<Range>
    decreases infos.len(),
{
    if infos.len() == 0 {
        Seq::empty()
    } else {
        let r = spec_range(starts, infos.last().span);
        command_folds(infos.drop_last(), starts) + if r.start.line < r.end.line {
            seq![r]
        } else {
            Seq::empty()
        }
    }
}

/// The folds of the matched push/pop blocks that span more than one line: from
/// the start of the push to the end of the pop.
pub open spec fn block_folds(pairs: Seq<PushPopPair>, starts: Seq<u32>) -> Seq<Range>
    decreases pairs.len(),
{
    if pairs.len() == 0 {
        Seq::empty()
    } else {
        let p = pairs.last();
        block_folds(pairs.drop_last(), starts) + match p.pop_span {
            Some(pop) => {
                let r = Range {
                    start: spec_offset_to_position(starts, p.push_span.start),
                    end: spec_offset_to_position(starts, pop.end),
                };
                if r.start.line < r.end.line {
                    seq![r]
                } else {
                    Seq::empty()
                }
            },
            None => Seq::empty(),
        }
    }
}

/// A list of ranges, one per span, or nothing when there is no span.
pub open spec fn listed_ranges(res: Option<Vec<Range>>, spans: Seq<Span>, starts: Seq<u32>) -> bool {
    match res {
        Some(v) => spans.len() > 0 && v@ == spans.map_values(|s: Span| spec_range(starts, s)),
        None => spans.len() == 0,
    }
}

impl Document {
    /// Go-to-definition at a byte offset (see `SymbolIndex::definition_span`).
    pub fn definition_at(&self, offset: u32) -> (res: Option<Range>)
        requires
            self.wf(),
        ensures
            res == opt_range(self.line_starts@, definition_target(self.index, offset)),
    {
        match self.index.definition_span(offset) {
            Some(span) => Some(self.span_to_range(span)),
            None => None,
        }
    }

    /// Find-references at a byte offset (see `SymbolIndex::reference_spans`),
    /// as ranges.
    pub fn references_at(&self, offset: u32, include_declaration: bool) -> (res: Option<Vec<Range>>)
        requires
            self.wf(),
        ensures
            match smallest_ref(self.index.refs(), offset, self.index.refs().len() as int) {
                Some(i) => listed_ranges(
                    res,
                    reference_list(
                        self.index,
                        self.index.refs()[i].name,
                        resolution(self.index, self.index.refs()[i]),
                        include_declaration,
                    ),
                    self.line_starts@,
                ),
                None => {
                    ||| (res is None && forall|n: Seq<char>, k: int|
                        #[trigger] self.index.definitions.view().contains_key(n) && 0 <= k
                            < self.index.definitions.view()[n].len() ==> !(
                        #[trigger] self.index.definitions.view()[n][k]).name_span.contains(offset as int))
                    ||| exists|n: Seq<char>, k: usize|
                        #[trigger] self.index.definitions.view().contains_key(n) && k
                            < self.index.definitions.view()[n].len() && (
                        #[trigger] self.index.definitions.view()[n][k as int]).name_span.contains(
                            offset as int,
                        ) && listed_ranges(
                            res,
                            reference_list(self.index, n, Some(k), include_declaration),
                            self.line_starts@,
                        )
                },
            },
    {
        let spans = match self.index.reference_spans(offset, include_declaration) {
            Some(v) => v,
            None => {
                return None;
            },
        };
        let mut ranges: Vec<Range> = Vec::new();
        let mut i: usize = 0;
        while i < spans.len()
            invariant
                self.wf(),
                i <= spans@.len(),
                ranges@ == spans@.take(i as int).map_values(|s: Span| spec_range(self.line_starts@, s)),
            decreases spans@.len() - i,
        {
            let r = self.span_to_range(spans[i]);
            proof {
                assert(spans@.take(i + 1).map_values(|s: Span| spec_range(self.line_starts@, s))
                    =~= spans@.take(i as int).map_values(|s: Span| spec_range(self.line_starts@, s)).push(r));
            }
            ranges.push(r);
            i = i + 1;
        }
        proof {
            assert(spans@.take(spans@.len() as int) =~= spans@);
        }
        Some(ranges)
    }

    /// The document outline: declarations, assertions, push/pop and the logic,
    /// in order.
    pub fn outline(&self) -> (res: Vec<OutlineItem>)
        requires
            self.wf(),
        ensures
            res@.map_values(|o: OutlineItem| o@) == outline_of(self.index.infos(), self.line_starts@),
    {
        let cmds = &self.index.command_spans;
        let mut items: Vec<OutlineItem> = Vec::new();
        let mut i: usize = 0;
        proof {
            assert(self.index.infos().take(0) =~= Seq::<InfoView>::empty());
            assert(items@.map_values(|o: OutlineItem| o@) =~= Seq::<OutlineView>::empty());
        }
        while i < cmds.len()
            invariant
                self.wf(),
                cmds@ == self.index.command_spans@,
                i <= cmds@.len(),
                items@.map_values(|o: OutlineItem| o@) == outline_of(
                    self.index.infos().take(i as int),
                    self.line_starts@,
                ),
            decreases cmds@.len() - i,
        {
            let cmd = &cmds[i];
            proof {
                assert(self.index.infos()[i as int] == cmd@);
                assert(self.index.infos().take(i + 1).drop_last() =~= self.index.infos().take(i as int));
            }
            let ghost before = items@.map_values(|o: OutlineItem| o@);
            match outline_entry(cmd) {
                Some((name, kind)) => {
                    let range = self.span_to_range(cmd.span);
                    let item = OutlineItem { name, kind, range };
                    items.push(item);
                    proof {
                        assert(items@.map_values(|o: OutlineItem| o@) =~= before.push(item@));
                    }
                },
                None => {
                    proof {
                        assert(before + Seq::<OutlineView>::empty() =~= before);
                    }
                },
            }
            i = i + 1;
        }
        proof {
            assert(self.index.infos().take(cmds@.len() as int) =~= self.index.infos());
        }
        items
    }

    /// Folding ranges: every command that spans several lines, then every
    /// matched push/pop block that does.
    pub fn folding_ranges(&self) -> (res: Vec<Range>)
        requires
            self.wf(),
        ensures
            res@ == command_folds(self.index.infos(), self.line_starts@) + block_folds(
                self.index.push_pop_pairs@,
                self.line_starts@,
            ),
    {
        let mut ranges: Vec<Range> = Vec::new();
        // Fold each top-level command that spans multiple lines
        let cmds = &self.index.command_spans;
        let mut i: usize = 0;
        proof {
            assert(self.index.infos().take(0) =~= Seq::<InfoView>::empty());
        }
        while i < cmds.len()
            invariant
                self.wf(),
                cmds@ == self.index.command_spans@,
                i <= cmds@.len(),
                ranges@ == command_folds(self.index.infos().take(i as int), self.line_starts@),
            decreases cmds@.len() - i,
        {
            let cmd = &cmds[i];
            proof {
                assert(self.index.infos()[i as int] == cmd@);
                assert(self.index.infos().take(i + 1).drop_last() =~= self.index.infos().take(i as int));
            }
            let range = self.span_to_range(cmd.span);
            if range.start.line < range.end.line {
                ranges.push(range);
            } else {
                proof {
                    assert(ranges@ + Seq::<Range>::empty() =~= ranges@);
                }
            }
            i = i + 1;
        }
        proof {
            assert(self.index.infos().take(cmds@.len() as int) =~= self.index.infos());
        }
        let ghost first = ranges@;
        // Fold push/pop blocks
        let pairs = &self.index.push_pop_pairs;
        let mut j: usize = 0;
        proof {
            assert(pairs@.take(0) =~= Seq::<PushPopPair>::empty());
            assert(first + Seq::<Range>::empty() =~= first);
        }
        while j < pairs.len()
            invariant
                self.wf(),
                j <= pairs@.len(),
                ranges@ == first + block_folds(pairs@.take(j as int), self.line_starts@),
            decreases pairs@.len() - j,
        {
            let pair = pairs[j];
            proof {
                assert(pairs@.take(j + 1).drop_last() =~= pairs@.take(j as int));
                assert(pairs@.take(j + 1).last() == pair);
            }
            let ghost before = ranges@;
            match pair.pop_span {
                Some(pop_span) => {
                    let start = self.offset_to_position(pair.push_span.start);
                    let end = self.offset_to_position(pop_span.end);
                    if start.line < end.line {
                        ranges.push(Range { start, end });
                        proof {
                            assert(first + block_folds(
                                pairs@.take(j + 1),
                                self.line_starts@,
                            ) =~= before.push(Range { start, end }));
                        }
                    } else {
                        proof {
                            assert(first + block_folds(pairs@.take(j + 1), self.line_starts@) =~= before);
                        }
                    }
                },
                None => {
                    proof {
                        assert(first + block_folds(pairs@.take(j + 1), self.line_starts@) =~= before);
                    }
                },
            }
            j = j + 1;
        }
        proof {
            assert(pairs@.take(pairs@.len() as int) =~= pairs@);
        }
        ranges
    }
}

/// The outline label and kind of a command entry.
fn outline_entry(cmd: &CommandInfo) -> (res: Option<(String, OutlineKind)>)
    ensures
        match (res, outline_label(cmd@)) {
            (Some((n, k)), Some((ln, lk))) => n@ == ln && k == lk,
            (None, None) => true,
            _ => false,
        },
{
    let name = match &cmd.name {
        Some(n) => n.clone(),
        None => "?".to_owned(),
    };
    match cmd.kind {
        CommandInfoKind::DeclareFun | CommandInfoKind::DeclareConst | CommandInfoKind::DefineFun
        | CommandInfoKind::DefineFunRec => Some((name, OutlineKind::Function)),
        CommandInfoKind::DeclareSort | CommandInfoKind::DefineSort => Some((name, OutlineKind::Class)),
        CommandInfoKind::DeclareDatatype | CommandInfoKind::DeclareDatatypes => Some(
            (name, OutlineKind::Enum),
        ),
        CommandInfoKind::Assert => Some(("assert".to_owned(), OutlineKind::Event)),
        CommandInfoKind::CheckSat => Some(("check-sat".to_owned(), OutlineKind::Event)),
        CommandInfoKind::Push => Some(("push".to_owned(), OutlineKind::Namespace)),
        CommandInfoKind::Pop => Some(("pop".to_owned(), OutlineKind::Namespace)),
        CommandInfoKind::SetLogic => {
            let mut label = "set-logic ".to_owned();
            label.append(name.as_str());
            Some((label, OutlineKind::Key))
        },
        CommandInfoKind::Other => None,
    }
}

// ---------------------------------------------------------------------------
// Laws of the outline and of folding
// ---------------------------------------------------------------------------

/// How many of the first `i` command entries the outline shows: all but those
/// of kind `Other`.
pub open spec fn shown_before(infos: Seq<InfoView>, i: int) -> nat
    decreases i,
{
    if i <= 0 || infos.len() < i {
        0
    } else {
        shown_before(infos, i - 1) + if infos[i - 1].kind != CommandInfoKind::Other {
            1nat
        } else {
            0nat
        }
    }
}

proof fn lemma_shown_prefix(infos: Seq<InfoView>, i: int)
    requires
        0 <= i < infos.len(),
    ensures
        shown_before(infos.drop_last(), i) == shown_before(infos, i),
    decreases i,
{
    if i > 0 {
        lemma_shown_prefix(infos, i - 1);
    }
}

proof fn lemma_shown_grows(infos: Seq<InfoView>, i: int, m: int)
    requires
        0 <= i < m <= infos.len(),
        infos[i].kind != CommandInfoKind::Other,
    ensures
        shown_before(infos, i) + 1 <= shown_before(infos, m),
    decreases m,
{
    if i + 1 < m {
        lemma_shown_grows(infos, i, m - 1);
    }
}

/// The name a declaration entry shows: its name, or `?` without one.
pub open spec fn shown_name(i: InfoView) -> Seq<char> {
    match i.name {
        Some(n) => n,
        None => "?"@,
    }
}

/// The outline has one entry per command entry not of kind `Other`, in order:
/// the entry of command entry `i` comes after those of the shown entries before
/// it, covers that command's range, and says what the command is: `push` and
/// `pop` as namespaces, `assert` and `check-sat` as events, `set-logic` with its
/// logic as a key, and declarations by their names (functions and constants as
/// functions, sorts as classes, datatypes as enums).
pub proof fn law_outline_entries(infos: Seq<InfoView>, starts: Seq<u32>)
    ensures
        outline_of(infos, starts).len() == shown_before(infos, infos.len() as int),
        forall|i: int|
            0 <= i < infos.len() && (#[trigger] infos[i]).kind != CommandInfoKind::Other ==> {
                let o = outline_of(infos, starts)[shown_before(infos, i) as int];
                &&& o.range == spec_range(starts, infos[i].span)
                &&& match infos[i].kind {
                    CommandInfoKind::Push => o.name == "push"@ && o.kind == OutlineKind::Namespace,
                    CommandInfoKind::Pop => o.name == "pop"@ && o.kind == OutlineKind::Namespace,
                    CommandInfoKind::Assert => o.name == "assert"@ && o.kind == OutlineKind::Event,
                    CommandInfoKind::CheckSat => o.name == "check-sat"@ && o.kind == OutlineKind::Event,
                    CommandInfoKind::SetLogic => o.name == "set-logic "@ + shown_name(infos[i]) && o.kind
                        == OutlineKind::Key,
                    CommandInfoKind::DeclareSort | CommandInfoKind::DefineSort => o.name == shown_name(infos[i])
                        && o.kind == OutlineKind::Class,
                    CommandInfoKind::DeclareDatatype | CommandInfoKind::DeclareDatatypes => o.name
                        == shown_name(infos[i]) && o.kind == OutlineKind::Enum,
                    _ => o.name == shown_name(infos[i]) && o.kind == OutlineKind::Function,
                }
            },
    decreases infos.len(),
{
    if infos.len() > 0 {
        let prev = infos.drop_last();
        law_outline_entries(prev, starts);
        let all = outline_of(infos, starts);
        let before = outline_of(prev, starts);
        let n = infos.len() - 1;
        assert(shown_before(infos, infos.len() as int) == shown_before(infos, n) + if infos[n].kind
            != CommandInfoKind::Other {
            1nat
        } else {
            0nat
        });
        lemma_shown_prefix(infos, n);
        assert(shown_before(prev, n) == shown_before(prev, prev.len() as int));
        assert forall|i: int|
            0 <= i < infos.len() && (#[trigger] infos[i]).kind != CommandInfoKind::Other implies {
                let o = all[shown_before(infos, i) as int];
                &&& o.range == spec_range(starts, infos[i].span)
                &&& match infos[i].kind {
                    CommandInfoKind::Push => o.name == "push"@ && o.kind == OutlineKind::Namespace,
                    CommandInfoKind::Pop => o.name == "pop"@ && o.kind == OutlineKind::Namespace,
                    CommandInfoKind::Assert => o.name == "assert"@ && o.kind == OutlineKind::Event,
                    CommandInfoKind::CheckSat => o.name == "check-sat"@ && o.kind == OutlineKind::Event,
                    CommandInfoKind::SetLogic => o.name == "set-logic "@ + shown_name(infos[i]) && o.kind
                        == OutlineKind::Key,
                    CommandInfoKind::DeclareSort | CommandInfoKind::DefineSort => o.name == shown_name(infos[i])
                        && o.kind == OutlineKind::Class,
                    CommandInfoKind::DeclareDatatype | CommandInfoKind::DeclareDatatypes => o.name
                        == shown_name(infos[i]) && o.kind == OutlineKind::Enum,
                    _ => o.name == shown_name(infos[i]) && o.kind == OutlineKind::Function,
                }
            } by {
            if i < n {
                lemma_shown_prefix(infos, i);
                lemma_shown_grows(prev, i, n);
                assert(prev[i] == infos[i]);
                assert(all[shown_before(infos, i) as int] == before[shown_before(prev, i) as int]);
            } else {
                assert(all[shown_before(infos, i) as int] == all[before.len() as int]);
            }
        }
    }
}

/// Every `push` and every `pop` of a script gets its own outline entry, in
/// command order, named after the command, drawn as a namespace and covering
/// the command's range, whatever the push depth.
pub proof fn law_outline_shows_push_and_pop(index: SymbolIndex, script: Script, starts: Seq<u32>, i: int)
    requires
        indexes(index, script),
        0 <= i < script.commands@.len(),
        script.commands@[i].node is Push || script.commands@[i].node is Pop,
    ensures
        index.infos().len() == script.commands@.len(),
        outline_of(index.infos(), starts)[shown_before(index.infos(), i) as int] == (OutlineView {
            name: if script.commands@[i].node is Pop { "pop"@ } else { "push"@ },
            kind: OutlineKind::Namespace,
            range: spec_range(starts, script.commands@[i].span),
        }),
        shown_before(index.infos(), i) < outline_of(index.infos(), starts).len(),
{
    let cmds = script.commands@;
    law_one_entry_per_command(cmds);
    law_outline_entries(index.infos(), starts);
    let infos = index.infos();
    assert(infos[i].kind != CommandInfoKind::Other);
    lemma_shown_grows(infos, i, infos.len() as int);
}

/// The push/pop blocks that fold: every matched pair, at any depth, whose push
/// starts on an earlier line than its pop ends folds from the start of the push
/// to the end of the pop, and nothing else does.
pub proof fn law_block_folds(pairs: Seq<PushPopPair>, starts: Seq<u32>)
    ensures
        forall|j: int|
            0 <= j < pairs.len() && (#[trigger] pairs[j]).pop_span is Some && spec_offset_to_position(
                starts,
                pairs[j].push_span.start,
            ).line < spec_offset_to_position(starts, pairs[j].pop_span->0.end).line ==> block_folds(
                pairs,
                starts,
            ).contains(
                Range {
                    start: spec_offset_to_position(starts, pairs[j].push_span.start),
                    end: spec_offset_to_position(starts, pairs[j].pop_span->0.end),
                },
            ),
        forall|k: int|
            0 <= k < block_folds(pairs, starts).len() ==> exists|j: int|
                0 <= j < pairs.len() && (#[trigger] pairs[j]).pop_span is Some && #[trigger] block_folds(
                    pairs,
                    starts,
                )[k] == (Range {
                    start: spec_offset_to_position(starts, pairs[j].push_span.start),
                    end: spec_offset_to_position(starts, pairs[j].pop_span->0.end),
                }) && block_folds(pairs, starts)[k].start.line < block_folds(pairs, starts)[k].end.line,
    decreases pairs.len(),
{
    if pairs.len() > 0 {
        let prev = pairs.drop_last();
        law_block_folds(prev, starts);
        let all = block_folds(pairs, starts);
        let before = block_folds(prev, starts);
        assert(all.take(before.len() as int) =~= before);
        assert forall|j: int|
            0 <= j < pairs.len() && (#[trigger] pairs[j]).pop_span is Some && spec_offset_to_position(
                starts,
                pairs[j].push_span.start,
            ).line < spec_offset_to_position(starts, pairs[j].pop_span->0.end).line implies all.contains(
            Range {
                start: spec_offset_to_position(starts, pairs[j].push_span.start),
                end: spec_offset_to_position(starts, pairs[j].pop_span->0.end),
            },
        ) by {
            let r = Range {
                start: spec_offset_to_position(starts, pairs[j].push_span.start),
                end: spec_offset_to_position(starts, pairs[j].pop_span->0.end),
            };
            if j < prev.len() {
                assert(prev[j] == pairs[j]);
                let m = choose|m: int| 0 <= m < before.len() && before[m] == r;
                assert(all[m] == before[m]);
            } else {
                assert(all[before.len() as int] == r);
            }
        }
        assert forall|k: int| 0 <= k < all.len() implies exists|j: int|
            0 <= j < pairs.len() && (#[trigger] pairs[j]).pop_span is Some && #[trigger] all[k] == (Range {
                start: spec_offset_to_position(starts, pairs[j].push_span.start),
                end: spec_offset_to_position(starts, pairs[j].pop_span->0.end),
            }) && all[k].start.line < all[k].end.line by {
            if k < before.len() {
                assert(all[k] == before[k]);
                let j = choose|j: int|
                    0 <= j < prev.len() && (#[trigger] prev[j]).pop_span is Some && #[trigger] before[k]
                        == (Range {
                        start: spec_offset_to_position(starts, prev[j].push_span.start),
                        end: spec_offset_to_position(starts, prev[j].pop_span->0.end),
                    }) && before[k].start.line < before[k].end.line;
                assert(pairs[j] == prev[j]);
            } else {
                let j = pairs.len() - 1;
                assert(pairs[j] == pairs.last());
            }
        }
    }
}

/// The commands that fold: every command entry whose range spans more than
/// one line folds over that range, and nothing else does.
pub proof fn law_command_folds(infos: Seq<InfoView>, starts: Seq<u32>)
    ensures
        forall|i: int|
            0 <= i < infos.len() && spec_range(starts, (#[trigger] infos[i]).span).start.line < spec_range(
                starts,
                infos[i].span,
            ).end.line ==> command_folds(infos, starts).contains(spec_range(starts, infos[i].span)),
        forall|k: int|
            0 <= k < command_folds(infos, starts).len() ==> exists|i: int|
                0 <= i < infos.len() && #[trigger] command_folds(infos, starts)[k] == spec_range(
                    starts,
                    (#[trigger] infos[i]).span,
                ) && command_folds(infos, starts)[k].start.line < command_folds(infos, starts)[k].end.line,
    decreases infos.len(),
{
    if infos.len() > 0 {
        let prev = infos.drop_last();
        law_command_folds(prev, starts);
        let all = command_folds(infos, starts);
        let before = command_folds(prev, starts);
        assert(all.take(before.len() as int) =~= before);
        assert forall|i: int|
            0 <= i < infos.len() && spec_range(starts, (#[trigger] infos[i]).span).start.line < spec_range(
                starts,
                infos[i].span,
            ).end.line implies all.contains(spec_range(starts, infos[i].span)) by {
            if i < prev.len() {
                assert(prev[i] == infos[i]);
                let m = choose|m: int| 0 <= m < before.len() && before[m] == spec_range(starts, infos[i].span);
                assert(all[m] == before[m]);
            } else {
                assert(all[before.len() as int] == spec_range(starts, infos[i].span));
            }
        }
        assert forall|k: int| 0 <= k < all.len() implies exists|i: int|
            0 <= i < infos.len() && #[trigger] all[k] == spec_range(starts, (#[trigger] infos[i]).span)
                && all[k].start.line < all[k].end.line by {
            if k < before.len() {
                assert(all[k] == before[k]);
                let i = choose|i: int|
                    0 <= i < prev.len() && #[trigger] before[k] == spec_range(starts, (#[trigger] prev[i]).span)
                        && before[k].start.line < before[k].end.line;
                assert(infos[i] == prev[i]);
            } else {
                let i = infos.len() - 1;
                assert(infos[i] == infos.last());
            }
        }
    }
}

} // verus!
