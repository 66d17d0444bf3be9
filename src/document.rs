use vstd::prelude::*;
use vstd::utf8::encode_utf8;
use svgparser::Tokenize;
use svgparser::path::Token as PathToken;
use crate::interpreter::CurveKind::{CurveTo, EllipticalArc, Quadratic, SmoothCurveTo, SmoothQuadratic};
use crate::interpreter::SegmentData::{ClosePath, HorizontalLineTo, LineTo, MoveTo, Unsupported, VerticalLineTo};
use crate::geometry::{CoordinatePair, Polyline, lines_view};
use crate::interpreter::{SegmentData, interpret, interpret_segments, lemma_interpret_valid};

verus! {

#[verifier::external_type_specification]
#[verifier::external_body]
pub struct ExDocumentTokenizer<'a>(svgparser::svg::Tokenizer<'a>);

#[verifier::external_type_specification]
#[verifier::external_body]
pub struct ExPathTokenizer<'a>(svgparser::path::Tokenizer<'a>);

#[verifier::external_type_specification]
#[verifier::external_body]
pub struct ExScanError(svgparser::Error);

#[verifier::external_type_specification]
#[verifier::external_body]
pub struct ExPathToken(svgparser::path::Token);

/// What the document scanner reports, as a value: an attribute's name and
/// value, another part of the document, the end, or a syntax error.
pub enum ScanEvent {
    Attribute { name: Seq<char>, value: Seq<char> },
    Other,
    End,
    Error,
}

/// The report with the given index of svgparser's document scanner run over
/// `text` from its start.
pub uninterp spec fn scan_event(text: Seq<char>, index: nat) -> ScanEvent;

/// The diagnostic text of the syntax error that svgparser's document
/// scanner gives as its report with the given index over `text`.
pub uninterp spec fn scan_error_text(text: Seq<char>, index: nat) -> Seq<char>;

/// The command with the given index that svgparser's path tokenizer reads
/// from `data`; `None` where the data ends or a syntax error comes.
pub uninterp spec fn path_command_at(data: Seq<char>, index: nat) -> Option<SegmentData>;

/// What the document scanner reports, reduced to what the parser reads.
pub enum DocumentToken<'a> {
    /// An attribute's name and its value.
    Attribute { name: String, value: &'a str },
    /// Any other part of the document.
    Other,
    /// The end of the document.
    End,
}

pub open spec fn token_event<'a>(r: Result<DocumentToken<'a>, String>) -> ScanEvent {
    match r {
        Ok(DocumentToken::Attribute { name, value }) => ScanEvent::Attribute { name: name@, value: value@ },
        Ok(DocumentToken::Other) => ScanEvent::Other,
        Ok(DocumentToken::End) => ScanEvent::End,
        Err(_) => ScanEvent::Error,
    }
}

/// Whether `<!DOCTYPE` starts at byte `i`.
pub open spec fn doctype_at(b: Seq<u8>, i: int) -> bool {
    &&& 0 <= i && i + 9 <= b.len()
    &&& b[i] == 60u8 && b[i + 1] == 33u8 && b[i + 2] == 68u8 && b[i + 3] == 79u8
    &&& b[i + 4] == 67u8 && b[i + 5] == 84u8 && b[i + 6] == 89u8 && b[i + 7] == 80u8
    &&& b[i + 8] == 69u8
}

/// Whether `<!ENTITY` starts at byte `i`.
pub open spec fn entity_at(b: Seq<u8>, i: int) -> bool {
    &&& 0 <= i && i + 8 <= b.len()
    &&& b[i] == 60u8 && b[i + 1] == 33u8 && b[i + 2] == 69u8 && b[i + 3] == 78u8
    &&& b[i + 4] == 84u8 && b[i + 5] == 73u8 && b[i + 6] == 84u8 && b[i + 7] == 89u8
}

/// The `[` at byte `k` opens the internal subset of the `<!DOCTYPE` at byte
/// `i`: it is the first `[` or `>` after it.
pub open spec fn subset_opens(b: Seq<u8>, i: int, k: int) -> bool {
    &&& doctype_at(b, i)
    &&& i < k < b.len()
    &&& b[k] == 91u8
    &&& forall|m: int| i <= m < k ==> b[m] != 91u8 && b[m] != 62u8
}

/// Text that svgparser's scanner reads without cutting a character: the
/// scanner ends a document type's name one byte before the `[` that opens
/// its internal subset, and an entity's name nine bytes after `<!ENTITY`.
/// Both cuts fall inside a character when a non-ASCII character stands just
/// before that `[`, or just after `<!ENTITY`; such text is refused.
pub open spec fn scannable(b: Seq<u8>) -> bool {
    &&& forall|i: int, k: int| subset_opens(b, i, k) ==> b[k - 1] < 128u8
    &&& forall|p: int| entity_at(b, p) && p + 8 < b.len() ==> b[p + 8] < 128u8
}

struct DocumentScanner<'a> {
    tokenizer: svgparser::svg::Tokenizer<'a>,
    text: Ghost<Seq<char>>,
    count: Ghost<nat>,
}

impl<'a> DocumentScanner<'a> {
    closed spec fn text(&self) -> Seq<char> {
        self.text@
    }

    closed spec fn count(&self) -> nat {
        self.count@
    }

    /// Relies on `svgparser::svg::Tokenizer::from_str`: a scanner at the
    /// start of `text`.
    #[verifier::external_body]
    fn new(text: &'a str) -> (r: Self)
        ensures
            r.text() == text@,
            r.count() == 0,
    {
        DocumentScanner { tokenizer: svgparser::svg::Tokenizer::from_str(text), text: Ghost(text@), count: Ghost(0) }
    }

    /// Relies on `svgparser::svg::Tokenizer::parse_next`: its next report,
    /// which depends on the text and on how many reports came before; and on
    /// the `Display` impl of `svgparser::Error` for the diagnostic text.
    #[verifier::external_body]
    fn next(&mut self) -> (r: Result<DocumentToken<'a>, String>)
        requires
            scannable(encode_utf8(old(self).text())),
        ensures
            final(self).text() == old(self).text(),
            final(self).count() == old(self).count() + 1,
            token_event(r) == scan_event(old(self).text(), old(self).count()),
            r matches Err(m) ==> m@ == scan_error_text(old(self).text(), old(self).count()),
    {
        let r = match self.tokenizer.parse_next() {
            Ok(svgparser::svg::Token::SvgAttribute(id, frame)) => Ok(
                DocumentToken::Attribute { name: id.name().to_owned(), value: frame.slice() },
            ),
            Ok(svgparser::svg::Token::XmlAttribute(name, value)) => Ok(
                DocumentToken::Attribute { name: name.to_owned(), value },
            ),
            Ok(svgparser::svg::Token::EndOfStream) => Ok(DocumentToken::End),
            Ok(_) => Ok(DocumentToken::Other),
            Err(e) => Err(e.to_string()),
        };
        self.count = Ghost(self.count@ + 1);
        r
    }
}

struct PathScanner<'a> {
    tokenizer: svgparser::path::Tokenizer<'a>,
    text: Ghost<Seq<char>>,
    count: Ghost<nat>,
}

impl<'a> PathScanner<'a> {
    closed spec fn text(&self) -> Seq<char> {
        self.text@
    }

    closed spec fn count(&self) -> nat {
        self.count@
    }

    /// Relies on `svgparser::path::Tokenizer::from_str`: a tokenizer at the
    /// start of `text`.
    #[verifier::external_body]
    fn new(text: &'a str) -> (r: Self)
        ensures
            r.text() == text@,
            r.count() == 0,
    {
        PathScanner { tokenizer: svgparser::path::Tokenizer::from_str(text), text: Ghost(text@), count: Ghost(0) }
    }

    /// Relies on `svgparser::path::Tokenizer::parse_next`: its next command,
    /// `None` at the end of the data or at a syntax error.
    #[verifier::external_body]
    fn next(&mut self) -> (r: Option<SegmentData>)
        ensures
            final(self).text() == old(self).text(),
            final(self).count() == old(self).count() + 1,
            r == path_command_at(old(self).text(), old(self).count()),
    {
        let r = match self.tokenizer.parse_next() {
            Ok(token) => segment_of(token),
            Err(_) => None,
        };
        self.count = Ghost(self.count@ + 1);
        r
    }
}

/// Reads a `svgparser::path::Token` as a command of this library, with each
/// coordinate as its bit pattern (`f64::to_bits`); `None` for the end.
#[verifier::external_body]
fn segment_of(token: PathToken) -> Option<SegmentData> {
    Some(match token {
        PathToken::MoveTo { x, y, .. } => MoveTo { x: x.to_bits(), y: y.to_bits() },
        PathToken::LineTo { x, y, .. } => LineTo { x: x.to_bits(), y: y.to_bits() },
        PathToken::HorizontalLineTo { x, .. } => HorizontalLineTo { x: x.to_bits() },
        PathToken::VerticalLineTo { y, .. } => VerticalLineTo { y: y.to_bits() },
        PathToken::CurveTo { .. } => Unsupported(CurveTo),
        PathToken::SmoothCurveTo { .. } => Unsupported(SmoothCurveTo),
        PathToken::Quadratic { .. } => Unsupported(Quadratic),
        PathToken::SmoothQuadratic { .. } => Unsupported(SmoothQuadratic),
        PathToken::EllipticalArc { .. } => Unsupported(EllipticalArc),
        PathToken::ClosePath { .. } => ClosePath,
        PathToken::EndOfStream => return None,
    })
}

/// The commands from the given index on, before the tokenizer stops, taking
/// at most `fuel` of them.
pub open spec fn path_commands_from(data: Seq<char>, index: nat, fuel: nat) -> Seq<SegmentData>
    decreases fuel,
{
    if fuel == 0 {
        Seq::empty()
    } else {
        match path_command_at(data, index) {
            None => Seq::empty(),
            Some(c) => seq![c] + path_commands_from(data, index + 1, (fuel - 1) as nat),
        }
    }
}

/// The commands of one path's data: those read before its end or its first
/// syntax error, at most one per byte of the data and one more.
pub open spec fn path_commands(data: Seq<char>) -> Seq<SegmentData> {
    path_commands_from(data, 0, encode_utf8(data).len() + 1)
}

/// The message of a document whose scanner does not reach its end.
pub open spec fn unfinished_message() -> Seq<char> {
    "the scanner did not reach the end of the document"@
}

/// The message of a document refused before scanning.
pub open spec fn refusal_message() -> Seq<char> {
    "a character the scanner would cut stands in a document type declaration"@
}

/// The values of the attributes named exactly `d` from the report with the
/// given index on, in order; or the diagnostic of the scanner's first syntax
/// error; or, when `fuel` reports pass without reaching the end, a message
/// that says so.
pub open spec fn d_values_from(text: Seq<char>, index: nat, fuel: nat) -> Result<Seq<Seq<char>>, Seq<char>>
    decreases fuel,
{
    if fuel == 0 {
        Err(unfinished_message())
    } else {
        match scan_event(text, index) {
            ScanEvent::End => Ok(Seq::empty()),
            ScanEvent::Error => Err(scan_error_text(text, index)),
            ScanEvent::Other => d_values_from(text, index + 1, (fuel - 1) as nat),
            ScanEvent::Attribute { name, value } => match d_values_from(text, index + 1, (fuel - 1) as nat) {
                Err(m) => Err(m),
                Ok(rest) => Ok(if is_path_data_name(name) { seq![value] + rest } else { rest }),
            },
        }
    }
}

/// The values of a document's attributes named exactly `d`, in order, when
/// the scanner reaches its end without an error, within one report per byte
/// and one more; the error's message otherwise.
pub open spec fn d_values(text: Seq<char>) -> Result<Seq<Seq<char>>, Seq<char>> {
    d_values_from(text, 0, encode_utf8(text).len() + 1)
}

/// A sequence of known values followed by what may come after them.
pub open spec fn prepend(known: Seq<Seq<char>>, after: Result<Seq<Seq<char>>, Seq<char>>) -> Result<Seq<Seq<char>>, Seq<char>> {
    match after {
        Ok(rest) => Ok(known + rest),
        Err(m) => Err(m),
    }
}

/// The polylines of a document whose `d` values hold the given command
/// sequences: each path is interpreted on its own, in order.
pub open spec fn document_polylines(paths: Seq<Seq<SegmentData>>) -> Seq<Seq<CoordinatePair>>
    decreases paths.len(),
{
    if paths.len() == 0 {
        Seq::empty()
    } else {
        document_polylines(paths.drop_last()) + interpret(paths.last())
    }
}

/// Paths share no state: the polylines of two runs of paths, one after the
/// other, are those of the first run followed by those of the second.
pub proof fn lemma_paths_independent(first: Seq<Seq<SegmentData>>, second: Seq<Seq<SegmentData>>)
    ensures
        document_polylines(first + second) == document_polylines(first) + document_polylines(second),
    decreases second.len(),
{
    if second.len() == 0 {
        assert(first + second =~= first);
        assert(document_polylines(first) + document_polylines(second) =~= document_polylines(first));
    } else {
        lemma_paths_independent(first, second.drop_last());
        assert((first + second).drop_last() =~= first + second.drop_last());
        assert((first + second).last() == second.last());
        assert(document_polylines(first + second) =~= document_polylines(first) + document_polylines(second));
    }
}

/// Every polyline of a document holds more than one point.
pub proof fn lemma_document_valid(paths: Seq<Seq<SegmentData>>)
    ensures
        forall|i: int| 0 <= i < document_polylines(paths).len() ==> #[trigger] document_polylines(paths)[i].len() > 1,
    decreases paths.len(),
{
    if paths.len() > 0 {
        let head = document_polylines(paths.drop_last());
        let tail = interpret(paths.last());
        lemma_document_valid(paths.drop_last());
        lemma_interpret_valid(paths.last());
        assert forall|i: int| 0 <= i < document_polylines(paths).len() implies #[trigger] document_polylines(paths)[i].len() > 1 by {
            if i < head.len() {
                assert(head[i].len() > 1);
            } else {
                assert(tail[i - head.len()].len() > 1);
            }
        }
    }
}

/// Whether an attribute name is exactly `d`.
pub open spec fn is_path_data_name(name: Seq<char>) -> bool {
    name == seq!['d']
}

/// The polylines of a sequence of paths, each interpreted with a fresh state.
pub fn polylines_of_paths(paths: &Vec<Vec<SegmentData>>) -> (r: Vec<Polyline>)
    ensures
        lines_view(r@) == document_polylines(paths@.map_values(|p: Vec<SegmentData>| p@)),
{
    let ghost views = paths@.map_values(|p: Vec<SegmentData>| p@);
    let mut out: Vec<Polyline> = Vec::new();
    let mut i: usize = 0;
    assert(views.take(0) =~= Seq::<Seq<SegmentData>>::empty());
    assert(lines_view(out@) =~= Seq::<Seq<CoordinatePair>>::empty());
    while i < paths.len()
        invariant
            i <= paths.len(),
            views == paths@.map_values(|p: Vec<SegmentData>| p@),
            lines_view(out@) == document_polylines(views.take(i as int)),
        decreases paths.len() - i,
    {
        let mut lines = interpret_segments(&paths[i]);
        out.append(&mut lines);
        assert(views.take(i + 1).drop_last() =~= views.take(i as int));
        assert(lines_view(out@) =~= document_polylines(views.take(i + 1)));
        i += 1;
    }
    assert(views.take(i as int) =~= views);
    out
}

/// Whether an attribute name is exactly `d`.
fn names_path_data(name: &String) -> (r: bool)
    ensures
        r == is_path_data_name(name@),
{
    proof {
        reveal_strlit("d");
        assert("d"@ =~= seq!['d']);
    }
    let d = "d".to_owned();
    name.eq(&d)
}

/// Whether `<!DOCTYPE` starts at byte `i`.
fn doctype_starts(b: &[u8], i: usize) -> (r: bool)
    ensures
        r == doctype_at(b@, i as int),
{
    if i > b.len() || b.len() - i < 9 {
        return false;
    }
    b[i] == 60u8 && b[i + 1] == 33u8 && b[i + 2] == 68u8 && b[i + 3] == 79u8 && b[i + 4] == 67u8
        && b[i + 5] == 84u8 && b[i + 6] == 89u8 && b[i + 7] == 80u8 && b[i + 8] == 69u8
}

/// Whether `<!ENTITY` starts at byte `i`.
fn entity_starts(b: &[u8], i: usize) -> (r: bool)
    ensures
        r == entity_at(b@, i as int),
{
    if i > b.len() || b.len() - i < 8 {
        return false;
    }
    b[i] == 60u8 && b[i + 1] == 33u8 && b[i + 2] == 69u8 && b[i + 3] == 78u8 && b[i + 4] == 84u8
        && b[i + 5] == 73u8 && b[i + 6] == 84u8 && b[i + 7] == 89u8
}

/// Whether the scanner reads the text without cutting a character.
pub fn is_scannable(b: &[u8]) -> (r: bool)
    ensures
        r == scannable(b@),
{
    let n = b.len();
    // Whether a `<!DOCTYPE` before `k` has no `[` or `>` after it yet.
    let mut pending = false;
    let mut k: usize = 0;
    while k < n
        invariant
            k <= n,
            n == b@.len(),
            pending == exists|i: int| 0 <= i < k && #[trigger] doctype_at(b@, i)
                && forall|m: int| i <= m < k ==> b@[m] != 91u8 && b@[m] != 62u8,
            forall|i: int, j: int| j < k && subset_opens(b@, i, j) ==> b@[j - 1] < 128u8,
            forall|p: int| p < k && entity_at(b@, p) && p + 8 < b@.len() ==> b@[p + 8] < 128u8,
        decreases n - k,
    {
        if pending && b[k] == 91u8 && b[k - 1] >= 128u8 {
            proof {
                let i = choose|i: int| 0 <= i < k && #[trigger] doctype_at(b@, i)
                    && forall|m: int| i <= m < k ==> b@[m] != 91u8 && b@[m] != 62u8;
                assert(subset_opens(b@, i, k as int));
            }
            return false;
        }
        if entity_starts(b, k) && k + 8 < n && b[k + 8] >= 128u8 {
            return false;
        }
        let here = doctype_starts(b, k);
        let ghost old_pending = pending;
        pending = (pending && b[k] != 91u8 && b[k] != 62u8) || here;
        proof {
            if old_pending && b@[k as int] != 91u8 && b@[k as int] != 62u8 {
                let i = choose|i: int| 0 <= i < k && #[trigger] doctype_at(b@, i)
                    && forall|m: int| i <= m < k ==> b@[m] != 91u8 && b@[m] != 62u8;
                assert(forall|m: int| i <= m < k + 1 ==> b@[m] != 91u8 && b@[m] != 62u8);
            } else if here {
                assert(forall|m: int| k <= m < k + 1 ==> b@[m] != 91u8 && b@[m] != 62u8);
            }
            if !pending {
                assert forall|i: int| 0 <= i < k + 1 && #[trigger] doctype_at(b@, i) implies !(forall|m: int|
                    i <= m < k + 1 ==> b@[m] != 91u8 && b@[m] != 62u8) by {
                    if i < k {
                        if forall|m: int| i <= m < k + 1 ==> b@[m] != 91u8 && b@[m] != 62u8 {
                            assert(forall|m: int| i <= m < k ==> b@[m] != 91u8 && b@[m] != 62u8);
                        }
                    }
                }
            }
            assert forall|i: int, j: int| j < k + 1 && subset_opens(b@, i, j) implies b@[j - 1] < 128u8 by {
                if j == k {
                    assert(doctype_at(b@, i) && 0 <= i < k && forall|m: int| i <= m < k ==> b@[m] != 91u8 && b@[m] != 62u8);
                }
            }
        }
        k += 1;
    }
    true
}

/// The commands of one path's data.
fn path_segments(data: &str) -> (r: Vec<SegmentData>)
    ensures
        r@ == path_commands(data@),
{
    let mut scanner = PathScanner::new(data);
    let mut out: Vec<SegmentData> = Vec::new();
    let mut budget: usize = data.as_bytes().len();
    assert(budget == encode_utf8(data@).len());
    assert(out@ + path_commands_from(data@, 0, (budget + 1) as nat) =~= path_commands(data@));
    loop
        invariant_except_break
            out@ + path_commands_from(data@, scanner.count(), (budget + 1) as nat) == path_commands(data@),
        invariant
            scanner.text() == data@,
        ensures
            out@ == path_commands(data@),
        decreases budget,
    {
        let ghost before = out@;
        let ghost c = scanner.count();
        match scanner.next() {
            Some(seg) => {
                out.push(seg);
                assert(out@ + path_commands_from(data@, c + 1, budget as nat) =~= before
                    + path_commands_from(data@, c, (budget + 1) as nat));
            },
            None => {
                assert(out@ =~= out@ + path_commands_from(data@, c, (budget + 1) as nat));
                break;
            },
        }
        if budget == 0 {
            assert(out@ =~= out@ + path_commands_from(data@, c + 1, 0));
            break;
        }
        budget -= 1;
    }
    out
}

/// The polylines of the `d` values of a document, when it has them.
pub open spec fn document_result(text: Seq<char>) -> Option<Seq<Seq<CoordinatePair>>> {
    match d_values(text) {
        Ok(ds) => Some(document_polylines(ds.map_values(|d: Seq<char>| path_commands(d)))),
        Err(_) => None,
    }
}

/// A document that the scanner reads to its end without meeting an
/// attribute named exactly `d` has no polylines.
pub proof fn lemma_no_path_data(text: Seq<char>)
    requires
        d_values(text) == Ok::<Seq<Seq<char>>, Seq<char>>(Seq::empty()),
    ensures
        document_result(text) == Some(Seq::<Seq<CoordinatePair>>::empty()),
{
    let ds = Seq::<Seq<char>>::empty();
    assert(ds.map_values(|d: Seq<char>| path_commands(d)) =~= Seq::<Seq<SegmentData>>::empty());
}

/// Parses a document and returns the polylines of all its `d` attributes, in
/// the order they are met, each path interpreted on its own. It fails with
/// the scanner's diagnostic when the scanner reports a syntax error, when
/// the scanner does not reach the end, or on text where the scanner would
/// cut a character (see `scannable`); errors inside one path only cut that
/// path short.
pub fn parse(svg: &str) -> (r: Result<Vec<Polyline>, String>)
    ensures
        !scannable(encode_utf8(svg@)) ==> (r matches Err(m) && m@ == refusal_message()),
        scannable(encode_utf8(svg@)) ==> (r is Ok <==> d_values(svg@) is Ok),
        scannable(encode_utf8(svg@)) ==> (r matches Err(m) ==> d_values(svg@) == Err::<Seq<Seq<char>>, Seq<char>>(m@)),
        r matches Ok(v) ==> document_result(svg@) == Some(lines_view(v@)),
        r matches Ok(v) ==> forall|i: int| 0 <= i < v@.len() ==> #[trigger] v@[i]@.len() > 1,
{
    if !is_scannable(svg.as_bytes()) {
        return Err("a character the scanner would cut stands in a document type declaration".to_owned());
    }
    let mut scanner = DocumentScanner::new(svg);
    let mut paths: Vec<Vec<SegmentData>> = Vec::new();
    let ghost mut found: Seq<Seq<char>> = Seq::empty();
    let mut budget: usize = svg.as_bytes().len();
    assert(budget == encode_utf8(svg@).len());
    proof {
        if let Ok(t) = d_values_from(svg@, 0, (budget + 1) as nat) {
            assert(found + t =~= t);
        }
    }
    loop
        invariant_except_break
            d_values(svg@) == prepend(found, d_values_from(svg@, scanner.count(), (budget + 1) as nat)),
            paths@.map_values(|p: Vec<SegmentData>| p@) == found.map_values(|d: Seq<char>| path_commands(d)),
        invariant
            scanner.text() == svg@,
            scannable(encode_utf8(svg@)),
            paths@.map_values(|p: Vec<SegmentData>| p@) == found.map_values(|d: Seq<char>| path_commands(d)),
        ensures
            d_values(svg@) == Ok::<Seq<Seq<char>>, Seq<char>>(found),
            paths@.map_values(|p: Vec<SegmentData>| p@) == found.map_values(|d: Seq<char>| path_commands(d)),
        decreases budget,
    {
        let ghost c = scanner.count();
        let ghost rest = d_values_from(svg@, c + 1, budget as nat);
        match scanner.next() {
            Ok(DocumentToken::Attribute { name, value }) => {
                if names_path_data(&name) {
                    let segs = path_segments(value);
                    let ghost old_paths = paths@;
                    paths.push(segs);
                    proof {
                        let old_found = found;
                        found = found.push(value@);
                        assert(paths@.map_values(|p: Vec<SegmentData>| p@) =~= found.map_values(|d: Seq<char>| path_commands(d))) by {
                            let pv = paths@.map_values(|p: Vec<SegmentData>| p@);
                            let fv = found.map_values(|d: Seq<char>| path_commands(d));
                            let opv = old_paths.map_values(|p: Vec<SegmentData>| p@);
                            let ofv = old_found.map_values(|d: Seq<char>| path_commands(d));
                            assert(opv == ofv);
                            assert(paths@ == old_paths.push(segs));
                            assert(opv.len() == old_paths.len());
                            assert(ofv.len() == old_found.len());
                            assert(found.len() == old_found.len() + 1);
                            assert(pv.len() == fv.len());
                            assert forall|i: int| 0 <= i < pv.len() implies pv[i] == fv[i] by {
                                if i == opv.len() {
                                    assert(pv[i] == segs@);
                                    assert(found[i] == value@);
                                } else {
                                    assert(pv[i] == opv[i]);
                                    assert(fv[i] == ofv[i]);
                                }
                            }
                        }
                        if let Ok(t) = rest {
                            assert(old_found + (seq![value@] + t) =~= found + t);
                        }
                    }
                }
            },
            Ok(DocumentToken::Other) => {},
            Ok(DocumentToken::End) => {
                assert(found + Seq::<Seq<char>>::empty() =~= found);
                break;
            },
            Err(e) => {
                return Err(e);
            },
        }
        if budget == 0 {
            return Err("the scanner did not reach the end of the document".to_owned());
        }
        budget -= 1;
    }
    let out = polylines_of_paths(&paths);
    proof {
        let views = paths@.map_values(|p: Vec<SegmentData>| p@);
        lemma_document_valid(views);
        assert forall|i: int| 0 <= i < out@.len() implies #[trigger] out@[i]@.len() > 1 by {
            assert(lines_view(out@)[i] == out@[i]@);
        }
    }
    Ok(out)
}

/// The status of a conversion: 0 when the document was parsed, 1 when not.
pub fn conversion_status(parsed: &Result<Vec<Polyline>, String>) -> (r: u8)
    ensures
        r == (if parsed is Ok { 0u8 } else { 1u8 }),
{
    match parsed {
        Ok(_) => 0,
        Err(_) => 1,
    }
}

} // verus!
